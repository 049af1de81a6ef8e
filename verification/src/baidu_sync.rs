//! Copying recordings and submissions to the cloud storage: what is queued, what runs, and what
//! becomes of what fails.

use crate::baidu_cookie::{
    normalize_baidu_token, normalize_baidu_token_optional, parse_baidu_cookie, read_cookie,
    read_token, read_token_optional, BaiduLoginCredential,
};
use crate::baidu_output::{is_baidu_upload_parallel_limit_error, BaiduRemoteEntry, RemoteEntryView};
use crate::baidu_path::{join_baidu_path, joined_path, normal_path, normalize_baidu_path};
use crate::baidu_remote::{filled, filled_text, BaiduHttpUserInfo};
use crate::outside::{moment_gap, parse_moment, rfc3339_moment, seconds_between, TimePoint};
use crate::season::copy_opt;
use crate::session::opt_text;
use crate::text::{
    concat2, contains, copy_text, decimal, digits_of, extend, extend_text, i64_digits, i64_value,
    join, lemma_decimal_round_trip, lemma_no_place, lemma_other_place, lemma_place_filled,
    parse_i64, replace, replaced, text_eq, texts, to_chars, to_text, trim, trim_text, trimmed,
    u64_digits,
};
use vstd::prelude::*;

verus! {

// ---------------------------------------------------------------------------
// Settings

/// The settings of the copying.
pub struct BaiduSyncSettings {
    pub enabled: bool,
    pub exec_path: String,
    pub target_path: String,
    pub policy: String,
    pub retry: i64,
    pub concurrency: i64,
}

/// A stored number, or another where none is stored.
pub open spec fn stored_number(v: Option<Seq<char>>, other: i64) -> i64 {
    match v {
        Some(s) => match i64_value(s) {
            Some(n) => n,
            None => other,
        },
        None => other,
    }
}

fn read_number(v: &Option<String>, other: i64) -> (r: i64)
    ensures
        r == stored_number(opt_text(*v), other),
{
    match v {
        Some(s) => {
            let chars = to_chars(s.as_str());
            match parse_i64(chars.as_slice()) {
                Some(n) => n,
                None => other,
            }
        },
        None => other,
    }
}

/// A stored text, or another where none is stored.
pub open spec fn stored_text(v: Option<Seq<char>>, other: Seq<char>) -> Seq<char> {
    match v {
        Some(s) => s,
        None => other,
    }
}

fn read_text(v: Option<String>, other: &str) -> (r: String)
    ensures
        r@ == stored_text(opt_text(v), other@),
{
    match v {
        Some(s) => s,
        None => copy_text(other),
    }
}

/// The settings, from what is stored of them. At least one task may run at a time.
pub fn baidu_sync_settings(
    exec_path: Option<String>,
    target_path: Option<String>,
    policy: Option<String>,
    retry: Option<String>,
    concurrency: Option<String>,
) -> (r: BaiduSyncSettings)
    ensures
        r.enabled,
        r.exec_path@ == stored_text(opt_text(exec_path), Seq::empty()),
        r.target_path@ == stored_text(opt_text(target_path), "/录播"@),
        r.policy@ == stored_text(opt_text(policy), "overwrite"@),
        r.retry == stored_number(opt_text(retry), 2),
        r.concurrency == (if stored_number(opt_text(concurrency), 3) < 1 {
            1
        } else {
            stored_number(opt_text(concurrency), 3)
        }),
{
    let exec = match exec_path {
        Some(s) => s,
        None => String::new(),
    };
    let number: i64 = read_number(&concurrency, 3);
    BaiduSyncSettings {
        enabled: true,
        exec_path: exec,
        target_path: read_text(target_path, "/录播"),
        policy: read_text(policy, "overwrite"),
        retry: read_number(&retry, 2),
        concurrency: if number < 1 {
            1
        } else {
            number
        },
    }
}

/// How many connections a download may use, from what is stored of it.
pub fn download_parallelism(stored: &Option<String>, other: i64) -> (r: i64)
    ensures
        r == ({
            let n = stored_number(opt_text(*stored), other);
            if n < 1 {
                1
            } else if n > 100 {
                100
            } else {
                n
            }
        }),
{
    let n: i64 = read_number(stored, other);
    if n < 1 {
        1
    } else if n > 100 {
        100
    } else {
        n
    }
}

/// The number of rows on a page of tasks, between 1 and 200.
pub open spec fn page_rows(page_size: i64) -> i64 {
    if page_size < 1 {
        1
    } else if page_size > 200 {
        200
    } else {
        page_size
    }
}

/// The number of rows on a page of tasks, and of those before it. A page before the first one
/// is the first one.
pub fn task_page(page: i64, page_size: i64) -> (r: (i64, i64))
    requires
        page > i64::MIN,
        (page - 1) * page_rows(page_size) <= i64::MAX,
    ensures
        r.0 == page_rows(page_size),
        r.1 == (if page <= 1 {
            0
        } else {
            (page - 1) * page_rows(page_size)
        }),
{
    let rows: i64 = if page_size < 1 {
        1
    } else if page_size > 200 {
        200
    } else {
        page_size
    };
    if page <= 1 {
        (rows, 0)
    } else {
        assert((page - 1) * rows >= 0) by (nonlinear_arith)
            requires
                page > 1,
                rows >= 1,
        ;
        (rows, (page - 1) * rows)
    }
}

// ---------------------------------------------------------------------------
// Running tasks

/// The tasks that run.
pub struct BaiduSyncRuntime {
    active_task_ids: Vec<i64>,
}

/// What is kept of some tasks: those of which it is not known that they ended.
pub open spec fn kept_active(ids: Seq<i64>, uploading: Seq<Option<bool>>) -> Seq<i64>
    decreases ids.len(),
{
    if ids.len() == 0 {
        Seq::empty()
    } else if uploading[ids.len() - 1] == Some(false) {
        kept_active(ids.drop_last(), uploading)
    } else {
        kept_active(ids.drop_last(), uploading).push(ids.last())
    }
}

/// What is dropped of some tasks.
pub open spec fn dropped_active(ids: Seq<i64>, uploading: Seq<Option<bool>>) -> Seq<i64>
    decreases ids.len(),
{
    if ids.len() == 0 {
        Seq::empty()
    } else if uploading[ids.len() - 1] == Some(false) {
        dropped_active(ids.drop_last(), uploading).push(ids.last())
    } else {
        dropped_active(ids.drop_last(), uploading)
    }
}

proof fn lemma_kept_active(ids: Seq<i64>, uploading: Seq<Option<bool>>)
    requires
        ids.no_duplicates(),
    ensures
        kept_active(ids, uploading).no_duplicates(),
        forall|id: i64| kept_active(ids, uploading).contains(id) ==> ids.contains(id),
    decreases ids.len(),
{
    if ids.len() > 0 {
        let rest = ids.drop_last();
        let kept = kept_active(rest, uploading);
        lemma_kept_active(rest, uploading);
        assert forall|id: i64| kept_active(ids, uploading).contains(id) implies ids.contains(
            id,
        ) by {
            if kept.contains(id) {
                assert(rest.contains(id));
                let k = choose|k: int| 0 <= k < rest.len() && rest[k] == id;
                assert(ids[k] == id);
            } else {
                let all = kept_active(ids, uploading);
                let k = choose|k: int| 0 <= k < all.len() && all[k] == id;
                if k < kept.len() {
                    assert(kept[k] == id);
                }
                assert(ids[ids.len() - 1] == id);
            }
        }
        if uploading[ids.len() - 1] != Some(false) {
            if kept.contains(ids.last()) {
                assert(rest.contains(ids.last()));
                let k = choose|k: int| 0 <= k < rest.len() && rest[k] == ids.last();
                assert(ids[k] == ids[ids.len() - 1]);
            }
            assert(!kept.contains(ids.last()));
            assert(kept.push(ids.last()).no_duplicates());
        }
    }
}

impl BaiduSyncRuntime {
    /// The tasks that run, in the order in which they began.
    pub closed spec fn view(&self) -> Seq<i64> {
        self.active_task_ids@
    }

    /// No task runs twice.
    pub open spec fn wf(&self) -> bool {
        self@.no_duplicates()
    }

    /// Nothing runs.
    pub fn new() -> (r: Self)
        ensures
            r.wf(),
            r@ == Seq::<i64>::empty(),
    {
        BaiduSyncRuntime { active_task_ids: Vec::new() }
    }

    /// The tasks that run.
    pub fn active(&self) -> (r: Vec<i64>)
        ensures
            r@ == self@,
    {
        let mut out: Vec<i64> = Vec::new();
        let mut i: usize = 0;
        while i < self.active_task_ids.len()
            invariant
                i <= self.active_task_ids@.len(),
                out@ == self.active_task_ids@.take(i as int),
            decreases self.active_task_ids.len() - i,
        {
            out.push(self.active_task_ids[i]);
            i += 1;
        }
        out
    }

    /// Notes that a task runs.
    pub fn insert(&mut self, id: i64)
        requires
            old(self).wf(),
        ensures
            final(self).wf(),
            final(self)@ == (if old(self)@.contains(id) {
                old(self)@
            } else {
                old(self)@.push(id)
            }),
    {
        let mut i: usize = 0;
        while i < self.active_task_ids.len()
            invariant
                i <= self.active_task_ids@.len(),
                *self == *old(self),
                self.wf(),
                forall|k: int| 0 <= k < i ==> self.active_task_ids@[k] != id,
            decreases self.active_task_ids.len() - i,
        {
            if self.active_task_ids[i] == id {
                assert(old(self)@[i as int] == id);
                return ;
            }
            i += 1;
        }
        assert(!old(self)@.contains(id));
        self.active_task_ids.push(id);
    }

    /// Notes that a task has ended.
    pub fn remove(&mut self, id: i64)
        requires
            old(self).wf(),
        ensures
            final(self).wf(),
            !final(self)@.contains(id),
            final(self)@ == old(self)@.remove_value(id),
    {
        let mut i: usize = 0;
        while i < self.active_task_ids.len()
            invariant
                i <= self.active_task_ids@.len(),
                *self == *old(self),
                self.wf(),
                forall|k: int| 0 <= k < i ==> self.active_task_ids@[k] != id,
            decreases self.active_task_ids.len() - i,
        {
            if self.active_task_ids[i] == id {
                let ghost all = self.active_task_ids@;
                proof {
                    all.index_of_first_ensures(id);
                }
                assert(all.index_of_first(id) == Some(i as int));
                self.active_task_ids.remove(i);
                assert(self@ =~= all.remove_value(id));
                assert forall|k: int| 0 <= k < self@.len() implies self@[k] != id by {
                    if k < i {
                        assert(self@[k] == all[k]);
                    } else {
                        assert(self@[k] == all[k + 1]);
                    }
                }
                return ;
            }
            i += 1;
        }
        proof {
            self@.index_of_first_ensures(id);
        }
        assert(!self@.contains(id));
    }

    /// Drops the tasks that have ended. `uploading` says of each running task whether it still
    /// uploads, as far as that could be learned. The dropped tasks are returned.
    pub fn reconcile(&mut self, uploading: &Vec<Option<bool>>) -> (r: Vec<i64>)
        requires
            old(self).wf(),
            uploading@.len() == old(self)@.len(),
        ensures
            final(self).wf(),
            final(self)@ == kept_active(old(self)@, uploading@),
            r@ == dropped_active(old(self)@, uploading@),
    {
        let ghost all = self.active_task_ids@;
        let mut kept: Vec<i64> = Vec::new();
        let mut dropped: Vec<i64> = Vec::new();
        let mut i: usize = 0;
        while i < self.active_task_ids.len()
            invariant
                i <= all.len(),
                self.active_task_ids@ == all,
                uploading@.len() == all.len(),
                kept@ == kept_active(all.take(i as int), uploading@),
                dropped@ == dropped_active(all.take(i as int), uploading@),
            decreases self.active_task_ids.len() - i,
        {
            assert(all.take(i + 1).drop_last() =~= all.take(i as int));
            assert(all.take(i + 1).last() == all[i as int]);
            let id: i64 = self.active_task_ids[i];
            match uploading[i] {
                Some(false) => {
                    dropped.push(id);
                },
                _ => {
                    kept.push(id);
                },
            }
            i += 1;
        }
        assert(all.take(i as int) =~= all);
        proof {
            lemma_kept_active(all, uploading@);
        }
        self.active_task_ids = kept;
        dropped
    }

    /// Tells whether another task may begin, when this round has begun some already.
    pub fn has_slot(&self, launched: i64, concurrency: i64) -> (r: bool)
        ensures
            r == (self@.len() < concurrency && launched < concurrency),
    {
        let active: usize = self.active_task_ids.len();
        if concurrency <= 0 {
            return false;
        }
        (active as u64) < (concurrency as u64) && launched < concurrency
    }
}

/// Beginning tasks only where a slot is free keeps the running tasks within their number.
pub proof fn law_concurrency_bounded(running: Seq<i64>, id: i64, launched: int, concurrency: int)
    requires
        running.len() < concurrency && launched < concurrency,
    ensures
        running.push(id).len() <= concurrency,
        launched + 1 <= concurrency,
{
}

// ---------------------------------------------------------------------------
// Queueing

/// How a submission is copied.
pub struct SubmissionSync {
    pub title: String,
    pub enabled: bool,
    pub path: Option<String>,
    pub filename: Option<String>,
    pub baidu_uid: Option<String>,
}

/// What is to be copied where. The name is that of the file before characters that file names
/// cannot have are replaced.
pub struct SyncTarget {
    pub local_path: String,
    pub remote_dir: String,
    pub raw_name: String,
}

/// What a request to copy comes to.
pub enum SyncRequest {
    /// Copying is switched off.
    Disabled,
    /// There is no file.
    NoFile,
    /// There is no place to copy to.
    NoPath,
    /// A file is to be copied.
    Copy(SyncTarget),
}

/// The name under which a submission is copied: the one that is set for it, else that of the
/// merged video, else that of its file.
pub open spec fn submission_name(
    set: Option<Seq<char>>,
    merged: Option<Seq<char>>,
    file: Option<Seq<char>>,
) -> Seq<char> {
    match filled(set) {
        Some(name) => name,
        None => match merged {
            Some(name) => name,
            None => match file {
                Some(name) => name,
                None => "merged.mp4"@,
            },
        },
    }
}

/// What a request to copy a submission comes to. `merged_path` and `merged_name` are those of
/// its newest merged video, `file_name` is the last part of that path.
pub fn submission_request(
    task: &SubmissionSync,
    merged_path: &Option<String>,
    merged_name: &Option<String>,
    file_name: &Option<String>,
    default_target: &str,
) -> (r: SyncRequest)
    ensures
        match r {
            SyncRequest::Disabled => !task.enabled,
            SyncRequest::NoFile => task.enabled && filled(opt_text(*merged_path)) is None,
            SyncRequest::NoPath => false,
            SyncRequest::Copy(target) => task.enabled && filled(opt_text(*merged_path)) is Some
                && opt_text(*merged_path) == Some(target.local_path@) && target.remote_dir@
                == normal_path(stored_text(opt_text(task.path), default_target@))
                && target.raw_name@ == submission_name(
                opt_text(task.filename),
                opt_text(*merged_name),
                opt_text(*file_name),
            ),
        },
{
    if !task.enabled {
        return SyncRequest::Disabled;
    }
    let local_path: String = match merged_path {
        Some(path) => {
            let bare = trim_text(path.as_str());
            if bare.as_str().is_empty() {
                return SyncRequest::NoFile;
            }
            copy_text(path.as_str())
        },
        None => {
            return SyncRequest::NoFile;
        },
    };
    let remote_dir = match &task.path {
        Some(path) => normalize_baidu_path(path.as_str()),
        None => normalize_baidu_path(default_target),
    };
    let raw_name = match filled_text(&task.filename) {
        Some(name) => name,
        None => match merged_name {
            Some(name) => copy_text(name.as_str()),
            None => match file_name {
                Some(name) => copy_text(name.as_str()),
                None => copy_text("merged.mp4"),
            },
        },
    };
    SyncRequest::Copy(SyncTarget { local_path, remote_dir, raw_name })
}

/// The date of a time, else another.
pub open spec fn date_or(time: Seq<char>, other: Seq<char>) -> Seq<char> {
    match rfc3339_moment(time) {
        Ok(moment) => moment.2,
        Err(_) => other,
    }
}

/// The date of a time, as year, month and day.
pub fn parse_date(input: &str) -> (r: Option<String>)
    ensures
        opt_text(r) == (match rfc3339_moment(input@) {
            Ok(moment) => Some(moment.2),
            Err(_) => None,
        }),
{
    match parse_moment(input) {
        Ok(moment) => Some(moment.date),
        Err(_) => None,
    }
}

/// What a request to copy a recording comes to, whose directory is named by a date. `file_name`
/// is the last part of its path.
pub fn live_request_on(
    file_path: &str,
    file_name: &Option<String>,
    live_date: &str,
    enabled: bool,
    room_path: &Option<String>,
) -> (r: SyncRequest)
    ensures
        match r {
            SyncRequest::NoFile => trim(file_path@).len() == 0,
            SyncRequest::Disabled => trim(file_path@).len() > 0 && !enabled,
            SyncRequest::NoPath => trim(file_path@).len() > 0 && enabled && filled(
                opt_text(*room_path),
            ) is None,
            SyncRequest::Copy(target) => trim(file_path@).len() > 0 && enabled && filled(
                opt_text(*room_path),
            ) is Some && target.local_path@ == file_path@ && target.remote_dir@ == joined_path(
                normal_path(opt_text(*room_path)->0),
                live_date@,
            ) && target.raw_name@ == stored_text(opt_text(*file_name), "record.mp4"@),
        },
{
    let bare = trim_text(file_path);
    if bare.as_str().is_empty() {
        return SyncRequest::NoFile;
    }
    if !enabled {
        return SyncRequest::Disabled;
    }
    let base = match room_path {
        Some(path) => {
            let bare_path = trim_text(path.as_str());
            if bare_path.as_str().is_empty() {
                return SyncRequest::NoPath;
            }
            normalize_baidu_path(path.as_str())
        },
        None => {
            return SyncRequest::NoPath;
        },
    };
    let remote_dir = join_baidu_path(base.as_str(), live_date);
    let raw_name = match file_name {
        Some(name) => copy_text(name.as_str()),
        None => copy_text("record.mp4"),
    };
    SyncRequest::Copy(SyncTarget { local_path: copy_text(file_path), remote_dir, raw_name })
}

/// What a request to copy a recording comes to. Its directory is named by the date on which it
/// began, or by the present date where that cannot be told.
pub fn live_request(
    file_path: &str,
    file_name: &Option<String>,
    start_time: &str,
    today: &str,
    enabled: bool,
    room_path: &Option<String>,
) -> (r: SyncRequest)
    ensures
        match r {
            SyncRequest::NoFile => trim(file_path@).len() == 0,
            SyncRequest::Disabled => trim(file_path@).len() > 0 && !enabled,
            SyncRequest::NoPath => trim(file_path@).len() > 0 && enabled && filled(
                opt_text(*room_path),
            ) is None,
            SyncRequest::Copy(target) => trim(file_path@).len() > 0 && enabled && filled(
                opt_text(*room_path),
            ) is Some && target.local_path@ == file_path@ && target.remote_dir@ == joined_path(
                normal_path(opt_text(*room_path)->0),
                date_or(start_time@, today@),
            ) && target.raw_name@ == stored_text(opt_text(*file_name), "record.mp4"@),
        },
{
    match parse_date(start_time) {
        Some(date) => live_request_on(file_path, file_name, date.as_str(), enabled, room_path),
        None => live_request_on(file_path, file_name, today, enabled, room_path),
    }
}

/// A file name made of a template; the template's marks stand for a title, a date and a number.
pub open spec fn filled_template(
    template: Seq<char>,
    title: Seq<char>,
    date: Seq<char>,
    index: Option<i64>,
) -> Seq<char> {
    let dated = replace(replace(template, "{{ title }}"@, title), "{{ date }}"@, date);
    match index {
        Some(n) => replace(
            replace(dated, "{{ index }}"@, decimal(n as int)),
            "{{ part }}"@,
            decimal(n as int),
        ),
        None => dated,
    }
}

/// A file name made of a template, or another where the template or what it gives is blank.
pub open spec fn rendered_name(
    template: Option<Seq<char>>,
    title: Seq<char>,
    date: Seq<char>,
    index: Option<i64>,
    fallback: Seq<char>,
) -> Seq<char> {
    let raw = trim(stored_text(template, Seq::empty()));
    let out = trim(filled_template(raw, title, date, index));
    if raw.len() == 0 || out.len() == 0 {
        fallback
    } else {
        out
    }
}

/// A file name made of a template, before characters that file names cannot have are replaced.
pub fn render_filename(
    template: &Option<String>,
    title: &str,
    date: &str,
    index: Option<i64>,
    fallback: &str,
) -> (r: String)
    ensures
        r@ == rendered_name(opt_text(*template), title@, date@, index, fallback@),
{
    let raw = match template {
        Some(t) => {
            let chars = to_chars(t.as_str());
            trimmed(chars.as_slice())
        },
        None => {
            let none: Vec<char> = Vec::new();
            assert(none@ =~= Seq::<char>::empty());
            trimmed(none.as_slice())
        },
    };
    if raw.len() == 0 {
        return copy_text(fallback);
    }
    proof {
        reveal_strlit("{{ title }}");
        reveal_strlit("{{ date }}");
        reveal_strlit("{{ index }}");
        reveal_strlit("{{ part }}");
    }
    let title_mark = to_chars("{{ title }}");
    let date_mark = to_chars("{{ date }}");
    let title_chars = to_chars(title);
    let date_chars = to_chars(date);
    let titled = replaced(raw.as_slice(), title_mark.as_slice(), title_chars.as_slice());
    let dated = replaced(titled.as_slice(), date_mark.as_slice(), date_chars.as_slice());
    let output = match index {
        Some(n) => {
            let index_mark = to_chars("{{ index }}");
            let part_mark = to_chars("{{ part }}");
            let number = i64_digits(n);
            let indexed = replaced(dated.as_slice(), index_mark.as_slice(), number.as_slice());
            replaced(indexed.as_slice(), part_mark.as_slice(), number.as_slice())
        },
        None => dated,
    };
    let out = trimmed(output.as_slice());
    if out.len() == 0 {
        copy_text(fallback)
    } else {
        to_text(out.as_slice())
    }
}

/// The rank of a task's state: the lower, the more it stands for its source. Finished tasks
/// have none.
pub open spec fn state_rank(state: Seq<char>) -> Option<int> {
    if state == "UPLOADING"@ {
        Some(0)
    } else if state == "PENDING"@ {
        Some(1)
    } else if state == "PAUSED"@ {
        Some(2)
    } else if state == "FAILED"@ {
        Some(3)
    } else if state == "CANCELLED"@ {
        Some(4)
    } else {
        None
    }
}

/// The tasks of a source: their ids and states.
pub open spec fn task_states(rows: Seq<(i64, String)>) -> Seq<(i64, Seq<char>)> {
    Seq::new(rows.len(), |i: int| (rows[i].0, rows[i].1@))
}

/// Tells whether a task stands for its source rather than another: by rank, then the newer.
pub open spec fn precedes(a: (i64, Seq<char>), b: (i64, Seq<char>)) -> bool {
    match (state_rank(a.1), state_rank(b.1)) {
        (Some(x), Some(y)) => x < y || (x == y && a.0 > b.0),
        (Some(_), None) => true,
        _ => false,
    }
}

/// The task that stands for its source.
pub open spec fn standing_task(rows: Seq<(i64, Seq<char>)>) -> Option<(i64, Seq<char>)>
    decreases rows.len(),
{
    if rows.len() == 0 {
        None
    } else {
        let best = standing_task(rows.drop_last());
        if state_rank(rows.last().1) is None {
            best
        } else {
            match best {
                Some(b) => if precedes(rows.last(), b) {
                    Some(rows.last())
                } else {
                    best
                },
                None => Some(rows.last()),
            }
        }
    }
}

/// How a request to copy a source is put into the queue.
pub enum QueueAction {
    /// As a new task.
    Insert,
    /// A task that waits takes the new data.
    Refresh(i64),
    /// A task that runs is left alone.
    Leave(i64),
    /// A task that failed or was given up takes the new data and begins anew.
    Restart(i64),
}

/// How a request is put into the queue.
pub open spec fn queued(rows: Seq<(i64, Seq<char>)>) -> QueueAction {
    match standing_task(rows) {
        Some((id, state)) => if state == "UPLOADING"@ {
            QueueAction::Leave(id)
        } else if state == "PENDING"@ || state == "PAUSED"@ {
            QueueAction::Refresh(id)
        } else {
            QueueAction::Restart(id)
        },
        None => QueueAction::Insert,
    }
}

fn rank_of(state: &str) -> (r: Option<u8>)
    ensures
        match r {
            Some(n) => state_rank(state@) == Some(n as int),
            None => state_rank(state@) is None,
        },
{
    if text_eq(state, "UPLOADING") {
        Some(0)
    } else if text_eq(state, "PENDING") {
        Some(1)
    } else if text_eq(state, "PAUSED") {
        Some(2)
    } else if text_eq(state, "FAILED") {
        Some(3)
    } else if text_eq(state, "CANCELLED") {
        Some(4)
    } else {
        None
    }
}

/// How a request to copy a source that has tasks is put into the queue.
pub fn queue_action(rows: &Vec<(i64, String)>) -> (r: QueueAction)
    ensures
        r == queued(task_states(rows@)),
{
    let ghost all = task_states(rows@);
    let mut best: Option<(usize, u8)> = None;
    let mut i: usize = 0;
    assert(all.take(0) =~= Seq::<(i64, Seq<char>)>::empty());
    while i < rows.len()
        invariant
            i <= rows@.len(),
            all == task_states(rows@),
            match best {
                Some((at, rank)) => at < i && standing_task(all.take(i as int)) == Some(
                    all[at as int],
                ) && state_rank(all[at as int].1) == Some(rank as int),
                None => standing_task(all.take(i as int)) is None,
            },
        decreases rows.len() - i,
    {
        assert(all.take(i + 1).drop_last() =~= all.take(i as int));
        assert(all.take(i + 1).last() == all[i as int]);
        if let Some(rank) = rank_of(rows[i].1.as_str()) {
            match best {
                Some((at, top)) => {
                    if rank < top || (rank == top && rows[i].0 > rows[at].0) {
                        best = Some((i, rank));
                    }
                },
                None => {
                    best = Some((i, rank));
                },
            }
        }
        i += 1;
    }
    assert(all.take(i as int) =~= all);
    match best {
        Some((at, rank)) => {
            let id: i64 = rows[at].0;
            proof {
                lemma_states_differ();
            }
            if rank == 0 {
                QueueAction::Leave(id)
            } else if rank <= 2 {
                QueueAction::Refresh(id)
            } else {
                QueueAction::Restart(id)
            }
        },
        None => QueueAction::Insert,
    }
}

proof fn lemma_states_differ()
    ensures
        "UPLOADING"@ != "PENDING"@,
        "UPLOADING"@ != "PAUSED"@,
        "UPLOADING"@ != "FAILED"@,
        "UPLOADING"@ != "CANCELLED"@,
        "PENDING"@ != "PAUSED"@,
        "PENDING"@ != "FAILED"@,
        "PENDING"@ != "CANCELLED"@,
        "PAUSED"@ != "FAILED"@,
        "PAUSED"@ != "CANCELLED"@,
        "FAILED"@ != "CANCELLED"@,
{
    reveal_strlit("UPLOADING");
    reveal_strlit("PENDING");
    reveal_strlit("PAUSED");
    reveal_strlit("FAILED");
    reveal_strlit("CANCELLED");
    assert("UPLOADING"@[0] == 'U');
    assert("PENDING"@[0] == 'P' && "PENDING"@[1] == 'E');
    assert("PAUSED"@[0] == 'P' && "PAUSED"@[1] == 'A');
    assert("FAILED"@[0] == 'F');
    assert("CANCELLED"@[0] == 'C');
}

/// A source that has a task which waits, runs, failed or was given up gets no second one, and a
/// task that runs is never touched.
pub proof fn law_no_second_task(rows: Seq<(i64, Seq<char>)>, k: int)
    requires
        0 <= k < rows.len(),
        state_rank(rows[k].1) is Some,
    ensures
        !(queued(rows) is Insert),
        rows[k].1 == "UPLOADING"@ ==> queued(rows) is Leave,
{
    lemma_standing(rows, k);
    lemma_states_differ();
}

proof fn lemma_standing(rows: Seq<(i64, Seq<char>)>, k: int)
    requires
        0 <= k < rows.len(),
        state_rank(rows[k].1) is Some,
    ensures
        standing_task(rows) matches Some(best) && state_rank(best.1) is Some && state_rank(
            best.1,
        )->0 <= state_rank(rows[k].1)->0,
    decreases rows.len(),
{
    let rest = rows.drop_last();
    if k < rest.len() {
        assert(rest[k] == rows[k]);
        lemma_standing(rest, k);
    } else {
        lemma_standing_ranked(rest);
    }
}

proof fn lemma_standing_ranked(rows: Seq<(i64, Seq<char>)>)
    ensures
        standing_task(rows) matches Some(best) ==> state_rank(best.1) is Some,
    decreases rows.len(),
{
    if rows.len() > 0 {
        lemma_standing_ranked(rows.drop_last());
    }
}

// ---------------------------------------------------------------------------
// Uploading

/// A task to copy a file.
pub struct BaiduSyncTask {
    pub id: i64,
    pub source_type: String,
    pub source_id: Option<String>,
    pub baidu_uid: Option<String>,
    pub local_path: String,
    pub remote_dir: String,
    pub remote_name: String,
    pub retry_count: i64,
    pub policy: Option<String>,
}

/// What an upload does with a file that is there already.
pub open spec fn upload_policy(value: Option<Seq<char>>) -> Option<Seq<char>> {
    match filled(value) {
        Some(v) => if v == "skip"@ || v == "overwrite"@ || v == "rsync"@ {
            Some(v)
        } else {
            None
        },
        None => None,
    }
}

/// What an upload does with a file that is there already, where it is one of the known ways.
pub fn normalize_baidu_upload_policy(value: &Option<String>) -> (r: Option<String>)
    ensures
        opt_text(r) == upload_policy(opt_text(*value)),
{
    match filled_text(value) {
        Some(v) => {
            if text_eq(v.as_str(), "skip") || text_eq(v.as_str(), "overwrite") || text_eq(
                v.as_str(),
                "rsync",
            ) {
                Some(v)
            } else {
                None
            }
        },
        None => None,
    }
}

/// The policy of a task: its own where it has one, else that of the settings; an unknown one
/// is to overwrite.
pub open spec fn task_policy(own: Option<Seq<char>>, common: Seq<char>) -> Seq<char> {
    let chosen = match own {
        Some(v) => v,
        None => common,
    };
    match upload_policy(Some(chosen)) {
        Some(v) => v,
        None => "overwrite"@,
    }
}

/// The policy of a task.
pub fn policy_of(task: &BaiduSyncTask, common: &str) -> (r: String)
    ensures
        r@ == task_policy(opt_text(task.policy), common@),
{
    let chosen: Option<String> = match &task.policy {
        Some(v) => Some(copy_text(v.as_str())),
        None => Some(copy_text(common)),
    };
    match normalize_baidu_upload_policy(&chosen) {
        Some(v) => v,
        None => copy_text("overwrite"),
    }
}

/// The arguments of an upload: at first with four connections, and with one where the storage
/// allows no more.
pub open spec fn upload_arg_texts(
    policy: Seq<char>,
    local: Seq<char>,
    dir: Seq<char>,
    limited: bool,
) -> Seq<Seq<char>> {
    if limited {
        seq!["upload"@, "-policy="@ + policy, "-p=1"@, "-l=1"@, "--norapid"@, local, dir]
    } else {
        seq!["upload"@, "-policy="@ + policy, "-p=4"@, "-l=1"@, local, dir]
    }
}

/// The arguments of an upload.
pub fn upload_args(policy: &str, local_path: &str, remote_dir: &str, limited: bool) -> (r: Vec<
    String,
>)
    ensures
        texts(r@) == upload_arg_texts(policy@, local_path@, remote_dir@, limited),
{
    let mut out: Vec<String> = Vec::new();
    out.push(copy_text("upload"));
    out.push(concat2("-policy=", policy));
    if limited {
        out.push(copy_text("-p=1"));
        out.push(copy_text("-l=1"));
        out.push(copy_text("--norapid"));
    } else {
        out.push(copy_text("-p=4"));
        out.push(copy_text("-l=1"));
    }
    out.push(copy_text(local_path));
    out.push(copy_text(remote_dir));
    assert(texts(out@) =~= upload_arg_texts(policy@, local_path@, remote_dir@, limited));
    out
}

/// What is to be done for a task that runs.
pub enum UploadStep {
    /// Run an upload with these arguments.
    Upload(Vec<String>),
    /// Look for the uploaded file.
    Locate,
    /// Settle the task on the file that was found.
    Settle,
    /// The task is done.
    Done,
    /// The task waits again; the number counts its tries.
    Again(i64, String),
    /// The task has failed.
    Failed(String),
}

/// What came of the last step.
pub enum UploadEvent {
    /// The upload ended, with the error where it failed.
    Uploaded(Option<String>),
    /// The file was looked for: whether it was found, and if not, the name and the size of the
    /// local file.
    Located(bool, String, u64),
    /// The task was settled, with the error where that failed.
    Settled(Option<String>),
}

/// A task that runs: the task, its policy, how often it may be tried again, and whether its
/// upload runs with one connection.
pub struct UploadJob {
    pub task: BaiduSyncTask,
    pub policy: String,
    pub max_retry: i64,
    pub limited: bool,
}

/// What becomes of a task after a failure: it waits again as long as tries are left.
pub open spec fn is_failure_step(step: UploadStep, retry_count: i64, max_retry: i64, error: Seq<char>) -> bool {
    if retry_count < max_retry {
        step matches UploadStep::Again(n, message) && n == retry_count + 1 && message@ == error
    } else {
        step matches UploadStep::Failed(message) && message@ == error
    }
}

/// What becomes of a task after a failure.
pub fn handle_baidu_sync_failure(retry_count: i64, max_retry: i64, error: &str) -> (r: UploadStep)
    ensures
        is_failure_step(r, retry_count, max_retry, error@),
{
    if retry_count < max_retry {
        UploadStep::Again(retry_count + 1, copy_text(error))
    } else {
        UploadStep::Failed(copy_text(error))
    }
}

/// The error of an upload whose file was not found afterwards.
pub open spec fn not_located(
    dir: Seq<char>,
    expected: Seq<char>,
    local_name: Seq<char>,
    size: u64,
) -> Seq<char> {
    "上传后未找到远程文件 dir="@ + dir + " expected="@ + expected + " local_name="@ + local_name
        + " size="@ + digits_of(size as nat)
}

/// Tells whether an error says that an upload ran into the limits of the storage.
pub open spec fn says_limited(error: Seq<char>) -> bool {
    contains(error, "当前上传单个文件最大并发量"@) || contains(
        error,
        "最大同时上传文件数"@,
    ) || contains(error, "文件上传失败"@)
}

impl UploadJob {
    /// Begins a task. A file that is not there fails at once.
    pub fn new(task: BaiduSyncTask, settings: &BaiduSyncSettings, local_exists: bool) -> (r: (
        UploadJob,
        UploadStep,
    ))
        ensures
            r.0.task == task,
            r.0.policy@ == task_policy(opt_text(task.policy), settings.policy@),
            r.0.max_retry == settings.retry,
            !r.0.limited,
            match r.1 {
                UploadStep::Upload(args) => local_exists && texts(args@) == upload_arg_texts(
                    r.0.policy@,
                    task.local_path@,
                    task.remote_dir@,
                    false,
                ),
                UploadStep::Failed(message) => !local_exists && message@
                    == "本地同步源文件不存在: "@ + task.local_path@,
                _ => false,
            },
    {
        let policy = policy_of(&task, settings.policy.as_str());
        let step = if local_exists {
            UploadStep::Upload(
                upload_args(
                    policy.as_str(),
                    task.local_path.as_str(),
                    task.remote_dir.as_str(),
                    false,
                ),
            )
        } else {
            UploadStep::Failed(concat2("本地同步源文件不存在: ", task.local_path.as_str()))
        };
        (UploadJob { task, policy, max_retry: settings.retry, limited: false }, step)
    }

    /// The next step of a task.
    pub fn next(&mut self, event: &UploadEvent) -> (r: UploadStep)
        ensures
            final(self).task == old(self).task,
            final(self).policy@ == old(self).policy@,
            final(self).max_retry == old(self).max_retry,
            match *event {
                UploadEvent::Uploaded(None) => r is Locate && final(self).limited == old(self).limited,
                UploadEvent::Uploaded(Some(error)) => if !old(self).limited && says_limited(
                    error@,
                ) {
                    final(self).limited && (r matches UploadStep::Upload(args) && texts(args@)
                        == upload_arg_texts(
                        old(self).policy@,
                        old(self).task.local_path@,
                        old(self).task.remote_dir@,
                        true,
                    ))
                } else {
                    final(self).limited == old(self).limited && is_failure_step(
                        r,
                        old(self).task.retry_count,
                        old(self).max_retry,
                        error@,
                    )
                },
                UploadEvent::Located(true, _, _) => r is Settle && final(self).limited == old(self).limited,
                UploadEvent::Located(false, local_name, size) => final(self).limited == old(self).limited && is_failure_step(
                    r,
                    old(self).task.retry_count,
                    old(self).max_retry,
                    not_located(
                        old(self).task.remote_dir@,
                        old(self).task.remote_name@,
                        local_name@,
                        size,
                    ),
                ),
                UploadEvent::Settled(None) => r is Done && final(self).limited == old(self).limited,
                UploadEvent::Settled(Some(error)) => final(self).limited == old(self).limited
                    && is_failure_step(
                    r,
                    old(self).task.retry_count,
                    old(self).max_retry,
                    error@,
                ),
            },
    {
        match event {
            UploadEvent::Uploaded(None) => UploadStep::Locate,
            UploadEvent::Uploaded(Some(error)) => {
                if !self.limited && is_baidu_upload_parallel_limit_error(error.as_str()) {
                    self.limited = true;
                    UploadStep::Upload(
                        upload_args(
                            self.policy.as_str(),
                            self.task.local_path.as_str(),
                            self.task.remote_dir.as_str(),
                            true,
                        ),
                    )
                } else {
                    handle_baidu_sync_failure(self.task.retry_count, self.max_retry, error.as_str())
                }
            },
            UploadEvent::Located(found, local_name, size) => {
                if *found {
                    return UploadStep::Settle;
                }
                let number = u64_digits(*size);
                let mut out = to_chars("上传后未找到远程文件 dir=");
                extend_text(&mut out, self.task.remote_dir.as_str());
                extend_text(&mut out, " expected=");
                extend_text(&mut out, self.task.remote_name.as_str());
                extend_text(&mut out, " local_name=");
                extend_text(&mut out, local_name.as_str());
                extend_text(&mut out, " size=");
                extend(&mut out, number.as_slice());
                let error = to_text(out.as_slice());
                handle_baidu_sync_failure(self.task.retry_count, self.max_retry, error.as_str())
            },
            UploadEvent::Settled(None) => UploadStep::Done,
            UploadEvent::Settled(Some(error)) => handle_baidu_sync_failure(
                self.task.retry_count,
                self.max_retry,
                error.as_str(),
            ),
        }
    }
}

/// A task is not tried again forever: every time that it waits again its count of tries grows,
/// and never beyond the number that the settings allow.
pub proof fn law_tries_bounded(step: UploadStep, retry_count: i64, max_retry: i64, error: Seq<char>)
    requires
        is_failure_step(step, retry_count, max_retry, error),
    ensures
        step matches UploadStep::Again(n, _) ==> retry_count < n <= max_retry,
        step is Again || step is Failed,
{
}

// ---------------------------------------------------------------------------
// Settling

/// The path to which an uploaded file is renamed, where it got another name.
pub fn rename_wanted(task: &BaiduSyncTask, entry: &BaiduRemoteEntry) -> (r: Option<String>)
    ensures
        opt_text(r) == (if task.remote_name@ == entry.name@ {
            None
        } else {
            Some(joined_path(task.remote_dir@, task.remote_name@))
        }),
{
    if text_eq(task.remote_name.as_str(), entry.name.as_str()) {
        None
    } else {
        Some(join_baidu_path(task.remote_dir.as_str(), task.remote_name.as_str()))
    }
}

/// An uploaded file that was renamed.
pub fn renamed_entry(task: &BaiduSyncTask, entry: BaiduRemoteEntry) -> (r: BaiduRemoteEntry)
    ensures
        r@ == (RemoteEntryView {
            name: task.remote_name@,
            path: joined_path(task.remote_dir@, task.remote_name@),
            ..entry@
        }),
{
    BaiduRemoteEntry {
        name: copy_text(task.remote_name.as_str()),
        path: join_baidu_path(task.remote_dir.as_str(), task.remote_name.as_str()),
        is_dir: entry.is_dir,
        size: entry.size,
    }
}

/// What is noted of a task that is done: the name that its file has where it is not the one
/// that was asked for, and the submission whose merged video is now found there.
pub struct SettlePlan {
    pub rebind: Option<String>,
    pub submission: Option<String>,
}

/// What is noted of a task whose file was found with a size.
pub fn settle(task: &BaiduSyncTask, entry: &BaiduRemoteEntry, size: u64) -> (r: Result<
    SettlePlan,
    String,
>)
    ensures
        match r {
            Ok(plan) => size > 0 && opt_text(plan.rebind) == (if entry.name@ == task.remote_name@ {
                None
            } else {
                Some(entry.name@)
            }) && opt_text(plan.submission) == (if task.source_type@ == "submission_merged"@ {
                filled(opt_text(task.source_id))
            } else {
                None
            }),
            Err(message) => size == 0 && message@ == "上传后文件大小为0"@,
        },
{
    if size == 0 {
        return Err(copy_text("上传后文件大小为0"));
    }
    let rebind = if text_eq(entry.name.as_str(), task.remote_name.as_str()) {
        None
    } else {
        Some(copy_text(entry.name.as_str()))
    };
    let submission = if text_eq(task.source_type.as_str(), "submission_merged") {
        filled_text(&task.source_id)
    } else {
        None
    };
    Ok(SettlePlan { rebind, submission })
}

// ---------------------------------------------------------------------------
// Recovery

/// How long a running task may be silent before it counts as lost, in seconds.
pub const STALE_AFTER: i64 = 2100;

/// Tells whether a running task counts as lost. At startup, where no time is given, every one
/// does; else one whose time of change is old or cannot be told.
pub open spec fn lost(updated_at: Seq<char>, now: Option<(i64, u32)>) -> bool {
    match now {
        Some((secs, nanos)) => match rfc3339_moment(updated_at) {
            Ok((s, n, _)) => s < secs - STALE_AFTER || (s == secs - STALE_AFTER && n <= nanos),
            Err(_) => true,
        },
        None => true,
    }
}

/// Tells whether a running task counts as lost.
pub fn is_lost(updated_at: &str, now: Option<(i64, u32)>) -> (r: bool)
    requires
        now matches Some(t) ==> t.0 >= i64::MIN + STALE_AFTER,
    ensures
        r == lost(updated_at@, now),
{
    match now {
        Some((secs, nanos)) => match parse_moment(updated_at) {
            Ok(moment) => {
                let before: i64 = secs - STALE_AFTER;
                moment.secs < before || (moment.secs == before && moment.nanos <= nanos)
            },
            Err(_) => true,
        },
        None => true,
    }
}

/// What becomes of a task that was lost.
pub enum LostAction {
    /// Its file was uploaded: settle it.
    Settle,
    /// Its file is gone: it has failed.
    Fail(String),
    /// It waits again.
    Wait,
}

/// What becomes of a task that was lost: `uploaded` tells whether its file was found in the
/// storage, as far as that could be learned.
pub fn lost_action(task: &BaiduSyncTask, uploaded: bool, local_exists: bool) -> (r: LostAction)
    ensures
        match r {
            LostAction::Settle => uploaded,
            LostAction::Fail(message) => !uploaded && !local_exists && message@
                == "本地同步源文件已删除，无法恢复同步: "@ + task.local_path@,
            LostAction::Wait => !uploaded && local_exists,
        },
{
    if uploaded {
        LostAction::Settle
    } else if !local_exists {
        LostAction::Fail(
            concat2("本地同步源文件已删除，无法恢复同步: ", task.local_path.as_str()),
        )
    } else {
        LostAction::Wait
    }
}

/// The error of a task whose file was deleted before it was copied.
pub fn deleted_source_error(local_path: &str) -> (r: String)
    ensures
        r@ == "本地同步源文件已删除，终止同步: "@ + local_path@,
{
    concat2("本地同步源文件已删除，终止同步: ", local_path)
}

/// Where a downloaded file is.
pub enum DownloadPlace {
    /// At its place.
    AtTarget,
    /// In the directory, under the name that it has in the storage.
    Beside,
    /// Somewhere below the directory, under that name.
    Below,
    /// Nowhere.
    Lost,
}

/// Where a downloaded file is, from what is found where.
pub fn download_place(at_target: bool, beside: bool, below: bool) -> (r: DownloadPlace)
    ensures
        r is AtTarget <==> at_target,
        r is Beside <==> !at_target && beside,
        r is Below <==> !at_target && !beside && below,
        r is Lost <==> !at_target && !beside && !below,
{
    if at_target {
        DownloadPlace::AtTarget
    } else if beside {
        DownloadPlace::Beside
    } else if below {
        DownloadPlace::Below
    } else {
        DownloadPlace::Lost
    }
}

// ---------------------------------------------------------------------------
// Accounts

/// An account of the cloud storage and whether it is logged in.
pub struct BaiduLoginInfo {
    pub status: String,
    pub uid: Option<String>,
    pub username: Option<String>,
    pub login_type: Option<String>,
    pub login_time: Option<String>,
    pub last_check_time: Option<String>,
}

/// An account of the cloud storage and whether it is logged in.
pub ghost struct LoginInfoView {
    pub status: Seq<char>,
    pub uid: Option<Seq<char>>,
    pub username: Option<Seq<char>>,
    pub login_type: Option<Seq<char>>,
    pub login_time: Option<Seq<char>>,
    pub last_check_time: Option<Seq<char>>,
}

impl View for BaiduLoginInfo {
    type V = LoginInfoView;

    open spec fn view(&self) -> LoginInfoView {
        LoginInfoView {
            status: self.status@,
            uid: opt_text(self.uid),
            username: opt_text(self.username),
            login_type: opt_text(self.login_type),
            login_time: opt_text(self.login_time),
            last_check_time: opt_text(self.last_check_time),
        }
    }
}

/// An account of the cloud storage in a list of accounts.
pub struct BaiduAccountSummary {
    pub uid: String,
    pub status: String,
    pub username: Option<String>,
    pub login_type: Option<String>,
    pub login_time: Option<String>,
    pub last_check_time: Option<String>,
    pub is_active: bool,
}

/// An account in a list, marked where it is the active one.
pub fn account_summary(uid: &str, info: &BaiduLoginInfo, active: &Option<String>) -> (r:
    BaiduAccountSummary)
    ensures
        r.uid@ == uid@,
        r.status@ == info.status@,
        opt_text(r.username) == opt_text(info.username),
        opt_text(r.login_type) == opt_text(info.login_type),
        opt_text(r.login_time) == opt_text(info.login_time),
        opt_text(r.last_check_time) == opt_text(info.last_check_time),
        r.is_active == (opt_text(*active) == Some(uid@)),
{
    let is_active = match active {
        Some(a) => text_eq(a.as_str(), uid),
        None => false,
    };
    BaiduAccountSummary {
        uid: copy_text(uid),
        status: copy_text(info.status.as_str()),
        username: copy_opt(&info.username),
        login_type: copy_opt(&info.login_type),
        login_time: copy_opt(&info.login_time),
        last_check_time: copy_opt(&info.last_check_time),
        is_active,
    }
}

/// A text, else another.
pub open spec fn or_other(a: Option<Seq<char>>, b: Option<Seq<char>>) -> Option<Seq<char>> {
    match a {
        Some(s) => Some(s),
        None => b,
    }
}

fn copy_either(a: &Option<String>, b: &Option<String>) -> (r: Option<String>)
    ensures
        opt_text(r) == or_other(opt_text(*a), opt_text(*b)),
{
    match a {
        Some(s) => Some(copy_text(s.as_str())),
        None => copy_opt(b),
    }
}

/// The uid of an account that was found valid: the one that its login data names, else the one
/// that is known, else the one that the interface tells.
pub open spec fn account_uid(
    named: Seq<char>,
    known: Option<Seq<char>>,
    told: Seq<char>,
) -> Seq<char> {
    if trim(named).len() > 0 {
        trim(named)
    } else {
        match filled(known) {
            Some(uid) => uid,
            None => told,
        }
    }
}

/// The account that login data was found valid for.
pub fn validated_account(
    credential: &BaiduLoginCredential,
    fallback_uid: &Option<String>,
    told: BaiduHttpUserInfo,
) -> (r: BaiduHttpUserInfo)
    ensures
        r.uid@ == account_uid(credential.baidu_uid@, opt_text(*fallback_uid), told.uid@),
        r.username == told.username,
{
    let named = trim_text(credential.baidu_uid.as_str());
    let uid = if !named.as_str().is_empty() {
        named
    } else {
        match filled_text(fallback_uid) {
            Some(uid) => uid,
            None => told.uid,
        }
    };
    BaiduHttpUserInfo { uid, username: told.username }
}

/// What is noted of an account after its login was checked. Without login data, and where the
/// check failed, it is logged out; what was known of it stays.
pub fn checked_login(
    previous: &BaiduLoginInfo,
    active_uid: &Option<String>,
    has_credential: bool,
    valid: &Option<BaiduHttpUserInfo>,
    now: &str,
) -> (r: BaiduLoginInfo)
    requires
        valid is Some ==> has_credential,
    ensures
        r@ == (LoginInfoView {
            status: if valid is Some {
                "LOGGED_IN"@
            } else {
                "LOGGED_OUT"@
            },
            uid: match *valid {
                Some(info) => Some(info.uid@),
                None => if has_credential {
                    or_other(opt_text(previous.uid), opt_text(*active_uid))
                } else {
                    opt_text(*active_uid)
                },
            },
            username: match *valid {
                Some(info) => or_other(opt_text(info.username), opt_text(previous.username)),
                None => opt_text(previous.username),
            },
            last_check_time: Some(now@),
            ..previous@
        }),
{
    match valid {
        Some(info) => BaiduLoginInfo {
            status: copy_text("LOGGED_IN"),
            uid: Some(copy_text(info.uid.as_str())),
            username: copy_either(&info.username, &previous.username),
            login_type: copy_opt(&previous.login_type),
            login_time: copy_opt(&previous.login_time),
            last_check_time: Some(copy_text(now)),
        },
        None => BaiduLoginInfo {
            status: copy_text("LOGGED_OUT"),
            uid: if has_credential {
                copy_either(&previous.uid, active_uid)
            } else {
                copy_opt(active_uid)
            },
            username: copy_opt(&previous.username),
            login_type: copy_opt(&previous.login_type),
            login_time: copy_opt(&previous.login_time),
            last_check_time: Some(copy_text(now)),
        },
    }
}

/// What is known of an account of which nothing is noted.
pub fn unknown_login(active_uid: &Option<String>) -> (r: BaiduLoginInfo)
    ensures
        r@ == (LoginInfoView {
            status: "LOGGED_OUT"@,
            uid: opt_text(*active_uid),
            username: None,
            login_type: None,
            login_time: None,
            last_check_time: None,
        }),
{
    BaiduLoginInfo {
        status: copy_text("LOGGED_OUT"),
        uid: copy_opt(active_uid),
        username: None,
        login_type: None,
        login_time: None,
        last_check_time: None,
    }
}

/// What is noted of an account that has just logged in.
pub fn new_login(info: &BaiduHttpUserInfo, login_type: &str, now: &str) -> (r: BaiduLoginInfo)
    ensures
        r@ == (LoginInfoView {
            status: "LOGGED_IN"@,
            uid: Some(info.uid@),
            username: opt_text(info.username),
            login_type: Some(login_type@),
            login_time: Some(now@),
            last_check_time: Some(now@),
        }),
{
    BaiduLoginInfo {
        status: copy_text("LOGGED_IN"),
        uid: Some(copy_text(info.uid.as_str())),
        username: copy_opt(&info.username),
        login_type: Some(copy_text(login_type)),
        login_time: Some(copy_text(now)),
        last_check_time: Some(copy_text(now)),
    }
}

/// The whole seconds between two times, where both can be told.
pub open spec fn text_gap(from: Seq<char>, to: Seq<char>) -> Option<i64> {
    match (rfc3339_moment(from), rfc3339_moment(to)) {
        (Ok(a), Ok(b)) => moment_gap(a.0, a.1, b.0, b.1),
        _ => None,
    }
}

/// Tells whether another login is tried: not within ten minutes of the last try.
pub fn should_attempt_relogin(credential: &BaiduLoginCredential, now: &str) -> (r: bool)
    ensures
        r == (match opt_text(credential.last_attempt_time) {
            Some(last) => match text_gap(last, now@) {
                Some(gap) => gap >= 600,
                None => true,
            },
            None => true,
        }),
{
    match &credential.last_attempt_time {
        Some(last) => match (parse_moment(last.as_str()), parse_moment(now)) {
            (Ok(a), Ok(b)) => {
                let from = TimePoint { secs: a.secs, nanos: a.nanos };
                let to = TimePoint { secs: b.secs, nanos: b.nanos };
                match seconds_between(from, to) {
                    Some(gap) => relogin_due(gap),
                    None => true,
                }
            },
            _ => true,
        },
        None => true,
    }
}

/// Tells whether another login is due, given the seconds since the last try.
pub fn relogin_due(gap: i64) -> (r: bool)
    ensures
        r == (gap >= 600),
{
    gap >= 600
}

/// Tells whether an error says that the storage is busy.
pub fn is_baidu_busy_error(err: &str) -> (r: bool)
    ensures
        r == (contains(err@, "50052"@) || contains(err@, "系统繁忙"@)),
{
    crate::text::text_has(err, "50052") || crate::text::text_has(err, "系统繁忙")
}

// ---------------------------------------------------------------------------
// Logging in

/// Tells whether login data is new: it has no failed tries, and is stored as tokens.
pub open spec fn is_new_credential(c: BaiduLoginCredential) -> bool {
    c.login_type@ == "bduss"@ && c.last_attempt_time is None && c.last_attempt_error is None
}

/// The login data in a pasted cookie, for an account that is not known yet.
pub fn credential_from_cookie(cookie: &str) -> (r: Result<BaiduLoginCredential, String>)
    ensures
        match r {
            Ok(c) => is_new_credential(c) && c.baidu_uid@.len() == 0 && (read_cookie(
                cookie@,
            ) matches Ok(parts) && opt_text(c.cookie) == Some(join(parts.items, "; "@))
                && c.bduss is Some && opt_text(c.bduss) == parts.bduss && opt_text(c.stoken)
                == parts.stoken),
            Err(message) => match read_cookie(cookie@) {
                Err(m) => message@ == m,
                Ok(parts) => parts.bduss is None && message@ == "Cookie 缺少 BDUSS"@,
            },
        },
{
    match parse_baidu_cookie(cookie) {
        Ok(parsed) => {
            if parsed.bduss.is_none() {
                return Err(copy_text("Cookie 缺少 BDUSS"));
            }
            Ok(
                BaiduLoginCredential {
                    baidu_uid: String::new(),
                    login_type: copy_text("bduss"),
                    cookie: Some(parsed.header),
                    bduss: parsed.bduss,
                    stoken: parsed.stoken,
                    last_attempt_time: None,
                    last_attempt_error: None,
                },
            )
        },
        Err(message) => Err(message),
    }
}

/// The login data in pasted tokens, for an account that is not known yet.
pub fn credential_from_tokens(bduss: &str, stoken: &Option<String>) -> (r: Result<
    BaiduLoginCredential,
    String,
>)
    ensures
        match r {
            Ok(c) => is_new_credential(c) && c.baidu_uid@.len() == 0 && c.cookie is None && (
            read_token(bduss@, "BDUSS"@) matches Ok(b) && opt_text(c.bduss) == Some(b)) && (
            match *stoken {
                Some(s) => read_token_optional(s@, "STOKEN"@) == Ok::<
                    Option<Seq<char>>,
                    Seq<char>,
                >(opt_text(c.stoken)),
                None => c.stoken is None,
            }),
            Err(message) => match read_token(bduss@, "BDUSS"@) {
                Err(m) => message@ == m,
                Ok(_) => *stoken matches Some(s) && read_token_optional(s@, "STOKEN"@) == Err::<
                    Option<Seq<char>>,
                    Seq<char>,
                >(message@),
            },
        },
{
    let token = match normalize_baidu_token(bduss, "BDUSS") {
        Ok(t) => t,
        Err(message) => {
            return Err(message);
        },
    };
    let second: Option<String> = match stoken {
        Some(s) => match normalize_baidu_token_optional(s.as_str(), "STOKEN") {
            Ok(t) => t,
            Err(message) => {
                return Err(message);
            },
        },
        None => None,
    };
    Ok(
        BaiduLoginCredential {
            baidu_uid: String::new(),
            login_type: copy_text("bduss"),
            cookie: None,
            bduss: Some(token),
            stoken: second,
            last_attempt_time: None,
            last_attempt_error: None,
        },
    )
}

/// What is noted of an account whose login is finished, and its login data: the way that it
/// logged in, a time where none was noted, and the uid where the data named none.
pub fn finished_login(
    info: BaiduLoginInfo,
    shown_type: &str,
    credential: BaiduLoginCredential,
    now: &str,
) -> (r: (BaiduLoginInfo, BaiduLoginCredential))
    ensures
        r.0@ == (LoginInfoView {
            login_type: Some(shown_type@),
            login_time: or_other(opt_text(info.login_time), Some(now@)),
            ..info@
        }),
        r.1.baidu_uid@ == (if trim(credential.baidu_uid@).len() == 0 {
            stored_text(opt_text(info.uid), Seq::empty())
        } else {
            credential.baidu_uid@
        }),
        r.1.login_type == credential.login_type,
        r.1.cookie == credential.cookie,
        r.1.bduss == credential.bduss,
        r.1.stoken == credential.stoken,
        r.1.last_attempt_time == credential.last_attempt_time,
        r.1.last_attempt_error == credential.last_attempt_error,
{
    let mut done = info;
    let mut data = credential;
    done.login_type = Some(copy_text(shown_type));
    if done.login_time.is_none() {
        done.login_time = Some(copy_text(now));
    }
    let bare = trim_text(data.baidu_uid.as_str());
    if bare.as_str().is_empty() {
        data.baidu_uid = match &done.uid {
            Some(uid) => copy_text(uid.as_str()),
            None => String::new(),
        };
    }
    (done, data)
}

// ---------------------------------------------------------------------------
// What copying amounts to

/// A page has at least one row and at most two hundred, and as many as are asked for in between.
pub proof fn law_page_rows_bounded(page_size: i64)
    ensures
        1 <= page_rows(page_size) <= 200,
        1 <= page_size <= 200 ==> page_rows(page_size) == page_size,
        page_size < 1 ==> page_rows(page_size) == 1,
        page_size > 200 ==> page_rows(page_size) == 200,
{
}

/// Every task that ran is kept or dropped, one or the other: those that are known to upload no more
/// are dropped, and all others stay.
pub proof fn law_running_kept_or_dropped(ids: Seq<i64>, uploading: Seq<Option<bool>>, k: int)
    requires
        ids.no_duplicates(),
        ids.len() <= uploading.len(),
        0 <= k < ids.len(),
    ensures
        kept_active(ids, uploading).contains(ids[k]) <==> uploading[k] != Some(false),
        dropped_active(ids, uploading).contains(ids[k]) <==> uploading[k] == Some(false),
        kept_active(ids, uploading).len() + dropped_active(ids, uploading).len() == ids.len(),
    decreases ids.len(),
{
    let rest = ids.drop_last();
    let n = ids.len() - 1;
    let kept = kept_active(rest, uploading);
    let dropped = dropped_active(rest, uploading);
    lemma_from_running(rest, uploading);
    if k < n {
        assert(rest[k] == ids[k]);
        assert(rest.no_duplicates());
        law_running_kept_or_dropped(rest, uploading, k);
        assert(ids[k] != ids[n]);
        lemma_pushed(kept, ids[n], ids[k]);
        lemma_pushed(dropped, ids[n], ids[k]);
    } else {
        if kept.contains(ids[n]) || dropped.contains(ids[n]) {
            assert(rest.contains(ids[n]));
            let m = choose|m: int| 0 <= m < rest.len() && rest[m] == ids[n];
            assert(ids[m] == ids[n]);
        }
        lemma_pushed(kept, ids[n], ids[n]);
        lemma_pushed(dropped, ids[n], ids[n]);
        lemma_split_count(rest, uploading);
    }
}

proof fn lemma_split_count(ids: Seq<i64>, uploading: Seq<Option<bool>>)
    ensures
        kept_active(ids, uploading).len() + dropped_active(ids, uploading).len() == ids.len(),
    decreases ids.len(),
{
    if ids.len() > 0 {
        lemma_split_count(ids.drop_last(), uploading);
    }
}

proof fn lemma_pushed(s: Seq<i64>, x: i64, y: i64)
    ensures
        s.push(x).contains(y) <==> s.contains(y) || x == y,
{
    if s.contains(y) {
        let k = choose|k: int| 0 <= k < s.len() && s[k] == y;
        assert(s.push(x)[k] == y);
    }
    if x == y {
        assert(s.push(x)[s.len() as int] == y);
    }
    if s.push(x).contains(y) && x != y {
        let k = choose|k: int| 0 <= k < s.push(x).len() && s.push(x)[k] == y;
        assert(s[k] == y);
    }
}

proof fn lemma_from_running(ids: Seq<i64>, uploading: Seq<Option<bool>>)
    ensures
        forall|id: i64| #[trigger] kept_active(ids, uploading).contains(id) ==> ids.contains(id),
        forall|id: i64| #[trigger] dropped_active(ids, uploading).contains(id) ==> ids.contains(id),
    decreases ids.len(),
{
    if ids.len() > 0 {
        let rest = ids.drop_last();
        lemma_from_running(rest, uploading);
        assert forall|id: i64| #[trigger] kept_active(ids, uploading).contains(id) implies ids.contains(
            id,
        ) by {
            lemma_pushed(kept_active(rest, uploading), ids.last(), id);
            lemma_pushed(rest, ids.last(), id);
            assert(rest.push(ids.last()) =~= ids);
        }
        assert forall|id: i64| #[trigger] dropped_active(ids, uploading).contains(
            id,
        ) implies ids.contains(id) by {
            lemma_pushed(dropped_active(rest, uploading), ids.last(), id);
            lemma_pushed(rest, ids.last(), id);
            assert(rest.push(ids.last()) =~= ids);
        }
    }
}

/// A submission is copied under the name that is set for it, else under that of the merged file,
/// else under that of the file.
pub proof fn law_submission_named(
    set: Option<Seq<char>>,
    merged: Option<Seq<char>>,
    file: Option<Seq<char>>,
)
    ensures
        set is Some && trim(set->0).len() > 0 ==> submission_name(set, merged, file) == trim(
            set->0,
        ),
        (set is None || trim(set->0).len() == 0) && merged is Some ==> submission_name(
            set,
            merged,
            file,
        ) == merged->0,
        (set is None || trim(set->0).len() == 0) && merged is None && file is Some
            ==> submission_name(set, merged, file) == file->0,
        (set is None || trim(set->0).len() == 0) && merged is None && file is None
            ==> submission_name(set, merged, file) == "merged.mp4"@,
{
}

/// A recording goes to the directory of the day on which it began, and of today where that is not
/// known.
pub proof fn law_directory_of_the_day(time: Seq<char>, other: Seq<char>)
    ensures
        ({
            let moment = rfc3339_moment(time);
            &&& moment is Ok ==> ({
                let known = moment->Ok_0;
                date_or(time, other) == known.2
            })
            &&& moment is Err ==> date_or(time, other) == other
        }),
{
}

/// Each place of a template is filled with what it is named for, and the rest stays.
pub proof fn law_template_places(
    a: Seq<char>,
    b: Seq<char>,
    title: Seq<char>,
    date: Seq<char>,
    n: i64,
)
    requires
        forall|k: int| 0 <= k < a.len() ==> a[k] != '{',
        forall|k: int| 0 <= k < b.len() ==> b[k] != '{',
        forall|k: int| 0 <= k < title.len() ==> title[k] != '{',
        forall|k: int| 0 <= k < date.len() ==> date[k] != '{',
        forall|k: int| 0 <= k < decimal(n as int).len() ==> decimal(n as int)[k] != '{',
    ensures
        filled_template(a + "{{ title }}"@ + b, title, date, Some(n)) == a + title + b,
        filled_template(a + "{{ date }}"@ + b, title, date, Some(n)) == a + date + b,
        filled_template(a + "{{ index }}"@ + b, title, date, Some(n)) == a + decimal(n as int) + b,
        filled_template(a + "{{ part }}"@ + b, title, date, Some(n)) == a + decimal(n as int) + b,
        filled_template(a + "{{ title }}"@ + b, title, date, None) == a + title + b,
        filled_template(a + "{{ date }}"@ + b, title, date, None) == a + date + b,
        filled_template(a, title, date, Some(n)) == a,
{
    reveal_strlit("{{ title }}");
    reveal_strlit("{{ date }}");
    reveal_strlit("{{ index }}");
    reveal_strlit("{{ part }}");
    let pt = "{{ title }}"@;
    let pd = "{{ date }}"@;
    let pi = "{{ index }}"@;
    let pp = "{{ part }}"@;
    let d = decimal(n as int);
    assert(pt.len() == 11 && pd.len() == 10 && pi.len() == 11 && pp.len() == 10);
    assert(pt[0] == '{' && pd[0] == '{' && pi[0] == '{' && pp[0] == '{');
    assert(pt[3] == 't' && pd[3] == 'd' && pi[3] == 'i' && pp[3] == 'p');
    let vt = a + title + b;
    let vd = a + date + b;
    let vi = a + d + b;
    lemma_place_filled(a, b, pt, title);
    lemma_place_filled(a, b, pd, date);
    lemma_place_filled(a, b, pi, d);
    lemma_place_filled(a, b, pp, d);
    lemma_no_place(vt, pd, date);
    lemma_no_place(vt, pi, d);
    lemma_no_place(vt, pp, d);
    lemma_no_place(vd, pi, d);
    lemma_no_place(vd, pp, d);
    lemma_no_place(vi, pp, d);
    lemma_other_place(a, b, pd, pt, title, 3);
    lemma_other_place(a, b, pi, pt, title, 3);
    lemma_other_place(a, b, pi, pd, date, 3);
    lemma_other_place(a, b, pp, pt, title, 3);
    lemma_other_place(a, b, pp, pd, date, 3);
    lemma_other_place(a, b, pp, pi, d, 3);
    lemma_no_place(a, pt, title);
    lemma_no_place(a, pd, date);
    lemma_no_place(a, pi, d);
    lemma_no_place(a, pp, d);
}

/// A name that comes out empty is no name: the file keeps its own.
pub proof fn law_empty_template_keeps_name(
    template: Option<Seq<char>>,
    title: Seq<char>,
    date: Seq<char>,
    index: Option<i64>,
    fallback: Seq<char>,
)
    ensures
        template is None ==> rendered_name(template, title, date, index, fallback) == fallback,
        template is Some && trim(template->0).len() == 0 ==> rendered_name(
            template,
            title,
            date,
            index,
            fallback,
        ) == fallback,
        template is Some && trim(template->0).len() > 0 && trim(
            filled_template(trim(template->0), title, date, index),
        ).len() > 0 ==> rendered_name(template, title, date, index, fallback) == trim(
            filled_template(trim(template->0), title, date, index),
        ),
{
    let none = Seq::<char>::empty();
    assert(trim(none) =~= none);
}

/// There are three ways to go about a file that is there already; a task has its own, else the
/// common one, and overwrites where neither is one of them.
pub proof fn law_three_policies(own: Option<Seq<char>>, common: Seq<char>)
    ensures
        ({
            let chosen = trim(
                if own is Some {
                    own->0
                } else {
                    common
                },
            );
            let known = chosen.len() > 0 && (chosen == "skip"@ || chosen == "overwrite"@ || chosen
                == "rsync"@);
            &&& known ==> task_policy(own, common) == chosen
            &&& !known ==> task_policy(own, common) == "overwrite"@
        }),
{
}

/// An upload names its policy, then, last, the file and the directory it goes to; one that was told
/// to be too many at once goes on alone and whole.
pub proof fn law_upload_command(policy: Seq<char>, local: Seq<char>, dir: Seq<char>, limited: bool)
    ensures
        ({
            let args = upload_arg_texts(policy, local, dir, limited);
            let n = args.len();
            &&& args[0] == "upload"@
            &&& args[1] == "-policy="@ + policy
            &&& args[n - 2] == local
            &&& args[n - 1] == dir
            &&& args[3] == "-l=1"@
            &&& args[2] == (if limited {
                "-p=1"@
            } else {
                "-p=4"@
            })
            &&& n == (if limited {
                7nat
            } else {
                6
            })
            &&& limited ==> args[4] == "--norapid"@
        }),
{
}

/// The client tells in one of three phrases that too much is uploaded at once.
pub proof fn law_limit_phrases(error: Seq<char>)
    ensures
        contains(error, "当前上传单个文件最大并发量"@) ==> says_limited(error),
        contains(error, "最大同时上传文件数"@) ==> says_limited(error),
        contains(error, "文件上传失败"@) ==> says_limited(error),
        !contains(error, "当前上传单个文件最大并发量"@) && !contains(
            error,
            "最大同时上传文件数"@,
        ) && !contains(error, "文件上传失败"@) ==> !says_limited(error),
{
}

/// A file that is not found behind its upload is told with the directory, both names and the size.
pub proof fn law_missing_upload_told(
    dir: Seq<char>,
    expected: Seq<char>,
    local_name: Seq<char>,
    size: u64,
)
    ensures
        not_located(dir, expected, local_name, size) == "上传后未找到远程文件 dir="@ + dir
            + " expected="@ + expected + " local_name="@ + local_name + " size="@ + digits_of(
            size as nat,
        ),
{
}

/// A task is lost once nothing was heard of it for thirty-five minutes; one that was heard of later
/// is not, and once lost it stays so.
pub proof fn law_silent_task_is_lost(
    updated_at: Seq<char>,
    at: (i64, u32, Seq<char>),
    secs: i64,
    nanos: u32,
    later: i64,
)
    requires
        rfc3339_moment(updated_at) == Ok::<(i64, u32, Seq<char>), Seq<char>>(at),
        secs >= i64::MIN + 2100,
        secs <= later,
    ensures
        secs - at.0 > 2100 ==> lost(updated_at, Some((secs, nanos))),
        secs - at.0 < 2100 ==> !lost(updated_at, Some((secs, nanos))),
        secs - at.0 == 2100 ==> lost(updated_at, Some((secs, nanos))) == (at.1 <= nanos),
        lost(updated_at, Some((secs, nanos))) ==> lost(updated_at, Some((later, nanos))),
{
}

/// An account is the one that the login names, else the one that is known, else the one that the
/// service tells.
pub proof fn law_account_named(named: Seq<char>, known: Option<Seq<char>>, told: Seq<char>)
    ensures
        trim(named).len() > 0 ==> account_uid(named, known, told) == trim(named),
        trim(named).len() == 0 && known is Some && trim(known->0).len() > 0 ==> account_uid(
            named,
            known,
            told,
        ) == trim(known->0),
        trim(named).len() == 0 && (known is None || trim(known->0).len() == 0) ==> account_uid(
            named,
            known,
            told,
        ) == told,
{
}

/// A number that is stored is read back, and one that cannot be read counts as not stored.
pub proof fn law_stored_number_read(n: i64, other: i64, v: Option<Seq<char>>)
    ensures
        stored_number(Some(decimal(n as int)), other) == n,
        stored_number(None, other) == other,
        v is Some && i64_value(v->0) is None ==> stored_number(v, other) == other,
{
    lemma_decimal_round_trip(n);
}

/// The time between two texts is that between the moments they tell.
pub proof fn law_gap_of_texts(
    from: Seq<char>,
    to: Seq<char>,
    a: (i64, u32, Seq<char>),
    b: (i64, u32, Seq<char>),
)
    requires
        rfc3339_moment(from) == Ok::<(i64, u32, Seq<char>), Seq<char>>(a),
        rfc3339_moment(to) == Ok::<(i64, u32, Seq<char>), Seq<char>>(b),
    ensures
        text_gap(from, to) == moment_gap(a.0, a.1, b.0, b.1),
{
}

/// A task that uploads goes before one that waits, that before one that pauses, that before one
/// that failed, and that before one that was cancelled; other states do not stand.
pub proof fn law_order_of_states(state: Seq<char>)
    ensures
        state_rank("UPLOADING"@) is Some && state_rank("PENDING"@) is Some && state_rank(
            "PAUSED"@,
        ) is Some && state_rank("FAILED"@) is Some && state_rank("CANCELLED"@) is Some,
        state_rank("UPLOADING"@)->0 < state_rank("PENDING"@)->0 < state_rank("PAUSED"@)->0
            < state_rank("FAILED"@)->0 < state_rank("CANCELLED"@)->0,
        state != "UPLOADING"@ && state != "PENDING"@ && state != "PAUSED"@ && state != "FAILED"@
            && state != "CANCELLED"@ ==> state_rank(state) is None,
{
    lemma_states_differ();
}

/// One task stands for a file: it is left where it uploads, taken anew where it waits or pauses, and
/// begun again where it failed or was cancelled.
pub proof fn law_standing_task_goes_on(id: i64, state: Seq<char>)
    ensures
        state == "UPLOADING"@ ==> queued(seq![(id, state)]) == QueueAction::Leave(id),
        state == "PENDING"@ || state == "PAUSED"@ ==> queued(seq![(id, state)])
            == QueueAction::Refresh(id),
        state == "FAILED"@ || state == "CANCELLED"@ ==> queued(seq![(id, state)])
            == QueueAction::Restart(id),
        queued(Seq::empty()) is Insert,
{
    lemma_states_differ();
    let rows = seq![(id, state)];
    assert(rows.drop_last() =~= Seq::<(i64, Seq<char>)>::empty());
    assert(rows.last() == (id, state));
    reveal_with_fuel(standing_task, 2);
}

/// The task that stands is one of the rows, and no other goes before it.
pub proof fn law_best_task_stands(rows: Seq<(i64, Seq<char>)>, k: int)
    requires
        0 <= k < rows.len(),
        state_rank(rows[k].1) is Some,
    ensures
        standing_task(rows) is Some,
        ({
            let best = standing_task(rows)->0;
            &&& rows.contains(best)
            &&& state_rank(best.1) is Some
            &&& state_rank(best.1)->0 <= state_rank(rows[k].1)->0
            &&& state_rank(best.1)->0 == state_rank(rows[k].1)->0 ==> best.0 >= rows[k].0
        }),
    decreases rows.len(),
{
    let rest = rows.drop_last();
    let n = rows.len() - 1;
    assert(rows[n] == rows.last());
    lemma_standing_listed(rest);
    if k < n {
        assert(rest[k] == rows[k]);
        law_best_task_stands(rest, k);
    }
    if standing_task(rest) is Some {
        let b = standing_task(rest)->0;
        assert(rest.contains(b));
        let m = choose|m: int| 0 <= m < rest.len() && rest[m] == b;
        assert(rows[m] == b);
    }
    assert(rows.contains(rows[n]));
}

proof fn lemma_standing_listed(rows: Seq<(i64, Seq<char>)>)
    ensures
        standing_task(rows) is Some ==> ({
            let best = standing_task(rows)->0;
            state_rank(best.1) is Some && rows.contains(best)
        }),
    decreases rows.len(),
{
    if rows.len() > 0 {
        let rest = rows.drop_last();
        let n = rows.len() - 1;
        lemma_standing_listed(rest);
        assert(rows[n] == rows.last());
        if standing_task(rest) is Some {
            let b = standing_task(rest)->0;
            let m = choose|m: int| 0 <= m < rest.len() && rest[m] == b;
            assert(rows[m] == b);
        }
        assert(rows.contains(rows[n]));
    }
}

} // verus!
