//! Seasons: what is saved of one, in which order its episodes come back, and the steps in
//! which it is restored.

use crate::json::{
    field, integer_at, items_at, list_view, or_number, text_at, text_or_empty, truth_at, Json,
    JsonView,
};
use crate::outside::pair_views;
use crate::session::opt_text;
use crate::stream::pair;
use crate::text::{
    contains, copy_text, decimal, digits_of, extend_text, text_eq, texts, to_text, u64_digits,
};
use std::collections::HashMap;
use vstd::prelude::*;

verus! {

broadcast use vstd::std_specs::hash::group_hash_axioms;

/// An entry of the list of seasons.
pub struct SeasonListItem {
    pub season_id: i64,
    pub title: String,
    pub description: String,
    pub cover: String,
    pub section_count: i64,
    pub episode_count: i64,
    pub complete: bool,
    pub state: i64,
    pub mtime: i64,
}

/// A saved episode.
#[derive(Clone)]
pub struct SeasonEpisodeBackup {
    pub episode_id: Option<i64>,
    pub title: String,
    pub aid: i64,
    pub cid: i64,
    pub bvid: Option<String>,
    pub archive_title: Option<String>,
    pub video_title: Option<String>,
    pub sort: i64,
    pub charging_pay: i64,
    pub member_first: i64,
    pub limited_free: bool,
    pub published_at: Option<i64>,
}

/// A saved section.
#[derive(Clone)]
pub struct SeasonSectionBackup {
    pub section_id: i64,
    pub section_type: i64,
    pub title: String,
    pub order: i64,
    pub cover: String,
    pub state: i64,
    pub part_state: i64,
    pub ep_count: i64,
    pub episodes: Vec<SeasonEpisodeBackup>,
}

/// A saved season.
#[derive(Clone)]
pub struct SeasonBackup {
    pub backup_id: String,
    pub source_season_id: i64,
    pub title: String,
    pub description: String,
    pub cover: String,
    pub season_price: i64,
    pub no_section: Option<i64>,
    pub section_id: i64,
    pub section_count: i64,
    pub episode_count: i64,
    pub captured_episode_count: i64,
    pub complete: bool,
    pub sections: Vec<SeasonSectionBackup>,
    pub episodes: Vec<SeasonEpisodeBackup>,
    pub created_at: String,
}

/// The outcome of a restoration.
pub struct SeasonRestoreResult {
    pub new_season_id: i64,
    pub added_episode_count: usize,
    pub created_section_count: usize,
    pub verified: bool,
    pub restored_section_count: usize,
    pub restored_episode_count: usize,
    pub restored_no_section: Option<i64>,
    pub expected_no_section: i64,
    pub episode_sort_mode: String,
    pub verification: Vec<SeasonRestoreVerificationItem>,
    pub warnings: Vec<String>,
}

/// The comparison of a restored section with what was saved.
pub struct SeasonRestoreVerificationItem {
    pub title: String,
    pub expected_type: i64,
    pub actual_type: i64,
    pub expected_episodes: usize,
    pub actual_episodes: usize,
    pub actual_show: i64,
    pub matched: bool,
}

/// Asks for a season to be saved.
pub struct SeasonBackupPayload {
    pub season_id: i64,
}

/// Asks for a season to be restored.
pub struct SeasonRestorePayload {
    pub backup_id: String,
    pub episode_sort_mode: Option<String>,
}

/// Asks for a saved season to be deleted.
pub struct SeasonBackupDeletePayload {
    pub backup_id: String,
}

// ---------------------------------------------------------------------------
// Models

/// What a saved episode holds.
pub ghost struct EpisodeView {
    pub episode_id: Option<i64>,
    pub title: Seq<char>,
    pub aid: i64,
    pub cid: i64,
    pub bvid: Option<Seq<char>>,
    pub archive_title: Option<Seq<char>>,
    pub video_title: Option<Seq<char>>,
    pub sort: i64,
    pub charging_pay: i64,
    pub member_first: i64,
    pub limited_free: bool,
    pub published_at: Option<i64>,
}

/// What a saved section holds.
pub ghost struct SectionView {
    pub section_id: i64,
    pub section_type: i64,
    pub title: Seq<char>,
    pub order: i64,
    pub cover: Seq<char>,
    pub state: i64,
    pub part_state: i64,
    pub ep_count: i64,
    pub episodes: Seq<EpisodeView>,
}

impl SeasonEpisodeBackup {
    /// What a saved episode holds.
    pub open spec fn view(&self) -> EpisodeView {
        EpisodeView {
            episode_id: self.episode_id,
            title: self.title@,
            aid: self.aid,
            cid: self.cid,
            bvid: opt_text(self.bvid),
            archive_title: opt_text(self.archive_title),
            video_title: opt_text(self.video_title),
            sort: self.sort,
            charging_pay: self.charging_pay,
            member_first: self.member_first,
            limited_free: self.limited_free,
            published_at: self.published_at,
        }
    }

    /// A copy of a saved episode.
    pub fn copy(&self) -> (r: Self)
        ensures
            r@ == self@,
    {
        SeasonEpisodeBackup {
            episode_id: self.episode_id,
            title: copy_text(self.title.as_str()),
            aid: self.aid,
            cid: self.cid,
            bvid: copy_opt(&self.bvid),
            archive_title: copy_opt(&self.archive_title),
            video_title: copy_opt(&self.video_title),
            sort: self.sort,
            charging_pay: self.charging_pay,
            member_first: self.member_first,
            limited_free: self.limited_free,
            published_at: self.published_at,
        }
    }
}

/// A copy of an optional text.
pub fn copy_opt(v: &Option<String>) -> (r: Option<String>)
    ensures
        opt_text(r) == opt_text(*v),
{
    match v {
        Some(s) => Some(copy_text(s.as_str())),
        None => None,
    }
}

/// The views of a list of episodes.
pub open spec fn episode_views(v: Seq<SeasonEpisodeBackup>) -> Seq<EpisodeView> {
    Seq::new(v.len(), |i: int| v[i]@)
}

fn copy_episodes(v: &Vec<SeasonEpisodeBackup>) -> (r: Vec<SeasonEpisodeBackup>)
    ensures
        episode_views(r@) == episode_views(v@),
{
    let mut out: Vec<SeasonEpisodeBackup> = Vec::new();
    let mut i: usize = 0;
    while i < v.len()
        invariant
            i <= v@.len(),
            out@.len() == i,
            forall|k: int| 0 <= k < i ==> (#[trigger] out@[k])@ == v@[k]@,
        decreases v.len() - i,
    {
        out.push(v[i].copy());
        i += 1;
    }
    assert(episode_views(out@) =~= episode_views(v@));
    out
}

impl SeasonSectionBackup {
    /// What a saved section holds.
    pub open spec fn view(&self) -> SectionView {
        SectionView {
            section_id: self.section_id,
            section_type: self.section_type,
            title: self.title@,
            order: self.order,
            cover: self.cover@,
            state: self.state,
            part_state: self.part_state,
            ep_count: self.ep_count,
            episodes: episode_views(self.episodes@),
        }
    }

    /// A copy of a saved section.
    pub fn copy(&self) -> (r: Self)
        ensures
            r@ == self@,
    {
        SeasonSectionBackup {
            section_id: self.section_id,
            section_type: self.section_type,
            title: copy_text(self.title.as_str()),
            order: self.order,
            cover: copy_text(self.cover.as_str()),
            state: self.state,
            part_state: self.part_state,
            ep_count: self.ep_count,
            episodes: copy_episodes(&self.episodes),
        }
    }
}

/// The views of a list of sections.
pub open spec fn section_views(v: Seq<SeasonSectionBackup>) -> Seq<SectionView> {
    Seq::new(v.len(), |i: int| v[i]@)
}

// ---------------------------------------------------------------------------
// Reading answers

/// The section entries of an answer.
pub open spec fn section_entries(raw: JsonView) -> Seq<JsonView> {
    match field(raw, "sections"@) {
        Some(outer) => match items_at(outer, "sections"@) {
            Some(list) => list,
            None => Seq::empty(),
        },
        None => Seq::empty(),
    }
}

/// The section entries of an answer.
pub fn season_sections(raw: &Json) -> (r: Vec<&Json>)
    ensures
        crate::stream::refs_view(r@) == section_entries(raw@),
{
    let mut out: Vec<&Json> = Vec::new();
    if let Some(outer) = raw.get("sections") {
        if let Some(list) = outer.get_array("sections") {
            let mut i: usize = 0;
            while i < list.len()
                invariant
                    i <= list@.len(),
                    out@.len() == i,
                    forall|k: int| 0 <= k < i ==> (#[trigger] out@[k])@ == list@[k]@,
                decreases list.len() - i,
            {
                out.push(&list[i]);
                i += 1;
            }
            assert(crate::stream::refs_view(out@) =~= list_view(list@));
            return out;
        }
    }
    assert(crate::stream::refs_view(out@) =~= Seq::<JsonView>::empty());
    out
}

/// The identifier of the first section of an answer, or zero.
pub fn first_section_id(raw: &Json) -> (r: i64)
    ensures
        r == (if section_entries(raw@).len() > 0 {
            or_number(integer_at(section_entries(raw@)[0], "id"@), 0)
        } else {
            0
        }),
{
    let sections = season_sections(raw);
    assert(sections@.len() == section_entries(raw@).len());
    if sections.len() > 0 {
        assert(sections@[0]@ == section_entries(raw@)[0]);
        sections[0].get_i64_or("id", 0)
    } else {
        0
    }
}

/// The numbers of episodes that the section entries tell.
pub open spec fn entry_counts(entries: Seq<JsonView>) -> Seq<int> {
    Seq::new(entries.len(), |i: int| or_number(integer_at(entries[i], "epCount"@), 0) as int)
}

/// The sum of numbers.
pub open spec fn total(counts: Seq<int>) -> int
    decreases counts.len(),
{
    if counts.len() == 0 {
        0
    } else {
        total(counts.drop_last()) + counts.last()
    }
}

/// Every partial sum fits in an `i64`.
pub open spec fn sums_fit(counts: Seq<int>) -> bool {
    forall|k: int|
        0 <= k <= counts.len() ==> i64::MIN <= #[trigger] total(counts.take(k)) <= i64::MAX
}

/// The sum of the episodes that the sections tell, where it fits.
pub fn checked_episode_count(raw: &Json) -> (r: Option<i64>)
    ensures
        match r {
            Some(n) => sums_fit(entry_counts(section_entries(raw@))) && n == total(
                entry_counts(section_entries(raw@)),
            ),
            None => !sums_fit(entry_counts(section_entries(raw@))),
        },
{
    let sections = season_sections(raw);
    let ghost counts = entry_counts(section_entries(raw@));
    let mut sum: i64 = 0;
    let mut i: usize = 0;
    assert(counts.take(0) =~= Seq::<int>::empty());
    while i < sections.len()
        invariant
            i <= sections@.len(),
            crate::stream::refs_view(sections@) == section_entries(raw@),
            counts == entry_counts(section_entries(raw@)),
            sum == total(counts.take(i as int)),
            forall|k: int|
                0 <= k <= i ==> i64::MIN <= #[trigger] total(counts.take(k)) <= i64::MAX,
        decreases sections.len() - i,
    {
        let n: i64 = sections[i].get_i64_or("epCount", 0);
        assert(crate::stream::refs_view(sections@)[i as int] == sections@[i as int]@);
        assert(counts[i as int] == n);
        assert(counts.take(i + 1).drop_last() =~= counts.take(i as int));
        assert(total(counts.take(i + 1)) == sum + n);
        match sum.checked_add(n) {
            Some(s) => {
                sum = s;
            },
            None => {
                return None;
            },
        }
        i += 1;
    }
    assert(counts.take(i as int) =~= counts);
    Some(sum)
}

/// The sum of the episodes that the sections tell.
pub fn section_episode_count(raw: &Json) -> (r: i64)
    requires
        sums_fit(entry_counts(section_entries(raw@))),
    ensures
        r == total(entry_counts(section_entries(raw@))),
{
    match checked_episode_count(raw) {
        Some(n) => n,
        None => 0,
    }
}

/// The season of an answer; nothing where it is absent.
pub open spec fn season_of(raw: JsonView) -> JsonView {
    match field(raw, "season"@) {
        Some(v) => v,
        None => JsonView::Null,
    }
}

/// The entry of a season in the list of seasons.
pub fn build_season_list_item(raw: &Json) -> (r: SeasonListItem)
    requires
        sums_fit(entry_counts(section_entries(raw@))),
    ensures
        r.season_id == or_number(integer_at(season_of(raw@), "id"@), 0),
        r.title@ == text_or_empty(season_of(raw@), "title"@),
        r.description@ == text_or_empty(season_of(raw@), "desc"@),
        r.cover@ == text_or_empty(season_of(raw@), "cover"@),
        r.section_count == section_entries(raw@).len() as i64,
        r.episode_count == total(entry_counts(section_entries(raw@))),
        r.complete == (r.section_count > 0),
        r.state == or_number(integer_at(season_of(raw@), "state"@), 0),
        r.mtime == or_number(integer_at(season_of(raw@), "mtime"@), 0),
{
    let nothing = Json::Null;
    let season = match raw.get("season") {
        Some(v) => v,
        None => &nothing,
    };
    let sections = season_sections(raw);
    assert(sections@.len() == section_entries(raw@).len());
    let section_count: i64 = sections.len() as i64;
    SeasonListItem {
        season_id: season.get_i64_or("id", 0),
        title: season.get_text_or_empty("title"),
        description: season.get_text_or_empty("desc"),
        cover: season.get_text_or_empty("cover"),
        section_count,
        episode_count: section_episode_count(raw),
        complete: section_count > 0,
        state: season.get_i64_or("state", 0),
        mtime: season.get_i64_or("mtime", 0),
    }
}

/// The first of the numbers under a list of keys.
pub open spec fn first_integer(v: JsonView, keys: Seq<Seq<char>>) -> Option<i64>
    decreases keys.len(),
{
    if keys.len() == 0 {
        None
    } else if integer_at(v, keys[0]) is Some {
        integer_at(v, keys[0])
    } else {
        first_integer(v, keys.drop_first())
    }
}

/// The keys under which an episode tells when it was published.
pub open spec fn publish_keys() -> Seq<Seq<char>> {
    seq!["publishedAt"@, "pubdate"@, "ctime"@, "pubDate"@, "publishTime"@]
}

/// When an episode was published.
pub open spec fn publish_time(raw: JsonView) -> Option<i64> {
    first_integer(raw, publish_keys())
}

fn pick(raw: &Json, keys: &Vec<&str>) -> (r: Option<i64>)
    ensures
        r == first_integer(raw@, Seq::new(keys@.len(), |i: int| keys@[i]@)),
{
    let ghost all = Seq::new(keys@.len(), |i: int| keys@[i]@);
    let mut i: usize = 0;
    assert(all.skip(0) =~= all);
    while i < keys.len()
        invariant
            i <= keys@.len(),
            all == Seq::new(keys@.len(), |i: int| keys@[i]@),
            first_integer(raw@, all) == first_integer(raw@, all.skip(i as int)),
        decreases keys.len() - i,
    {
        assert(all.skip(i as int)[0] == keys@[i as int]@);
        assert(all.skip(i as int).drop_first() =~= all.skip(i + 1));
        let found = raw.get_i64(keys[i]);
        if found.is_some() {
            return found;
        }
        i += 1;
    }
    assert(all.skip(i as int).len() == 0);
    None
}

/// When an episode was published.
pub fn episode_publish_time(raw: &Json) -> (r: Option<i64>)
    ensures
        r == publish_time(raw@),
{
    let keys: Vec<&str> = vec!["publishedAt", "pubdate", "ctime", "pubDate", "publishTime"];
    assert(Seq::new(keys@.len(), |i: int| keys@[i]@) =~= publish_keys());
    pick(raw, &keys)
}

/// The identifier of the archive in an audit entry.
pub fn archive_aid_from_audit_item(item: &Json) -> (r: Option<i64>)
    ensures
        r == audit_aid(item@),
{
    if let Some(archive) = item.get("Archive") {
        if let Some(aid) = archive.get_i64("aid") {
            return Some(aid);
        }
    }
    item.get_i64("aid")
}

/// The identifier of the archive in an audit entry: that of its archive, else its own.
pub open spec fn audit_aid(item: JsonView) -> Option<i64> {
    match field(item, "Archive"@) {
        Some(archive) => if integer_at(archive, "aid"@) is Some {
            integer_at(archive, "aid"@)
        } else {
            integer_at(item, "aid"@)
        },
        None => integer_at(item, "aid"@),
    }
}

/// When the archive in an audit entry was published.
pub open spec fn audit_time(item: JsonView) -> Option<i64> {
    let archive = match field(item, "Archive"@) {
        Some(a) => a,
        None => item,
    };
    if publish_time(archive) is Some {
        publish_time(archive)
    } else if first_integer(archive, archive_keys()) is Some {
        first_integer(archive, archive_keys())
    } else {
        first_integer(item, seq!["pubdate"@, "ctime"@, "mtime"@])
    }
}

/// The further keys under which an archive tells when it was published.
pub open spec fn archive_keys() -> Seq<Seq<char>> {
    seq!["ptime"@, "submit_time"@, "submitTime"@, "created_at"@, "createdAt"@, "mtime"@]
}

/// When the archive in an audit entry was published.
pub fn archive_publish_time_from_audit_item(item: &Json) -> (r: Option<i64>)
    ensures
        r == audit_time(item@),
{
    let archive = match item.get("Archive") {
        Some(a) => a,
        None => item,
    };
    let own = episode_publish_time(archive);
    if own.is_some() {
        return own;
    }
    let more: Vec<&str> = vec![
        "ptime",
        "submit_time",
        "submitTime",
        "created_at",
        "createdAt",
        "mtime",
    ];
    assert(Seq::new(more@.len(), |i: int| more@[i]@) =~= archive_keys());
    let found = pick(archive, &more);
    if found.is_some() {
        return found;
    }
    let last: Vec<&str> = vec!["pubdate", "ctime", "mtime"];
    assert(Seq::new(last@.len(), |i: int| last@[i]@) =~= seq!["pubdate"@, "ctime"@, "mtime"@]);
    pick(item, &last)
}

/// An episode as it is saved. `fallback_sort` is its place where the answer tells none.
pub open spec fn saved_episode(raw: JsonView, fallback_sort: i64) -> EpisodeView {
    EpisodeView {
        episode_id: integer_at(raw, "id"@),
        title: match text_at(raw, "archiveTitle"@) {
            Some(t) => t,
            None => text_or_empty(raw, "title"@),
        },
        aid: or_number(integer_at(raw, "aid"@), 0),
        cid: or_number(integer_at(raw, "cid"@), 0),
        bvid: text_at(raw, "bvid"@),
        archive_title: text_at(raw, "archiveTitle"@),
        video_title: text_at(raw, "videoTitle"@),
        sort: or_number(integer_at(raw, "order"@), fallback_sort),
        charging_pay: or_number(integer_at(raw, "charging_pay"@), 0),
        member_first: or_number(integer_at(raw, "member_first"@), 0),
        limited_free: truth_at(raw, "limited_free"@) == Some(true),
        published_at: publish_time(raw),
    }
}

/// An episode as it is saved.
pub fn build_episode_backup(raw: &Json, fallback_sort: i64) -> (r: SeasonEpisodeBackup)
    ensures
        r@ == saved_episode(raw@, fallback_sort),
{
    let archive_title = raw.get_text("archiveTitle");
    let title = match &archive_title {
        Some(t) => copy_text(t.as_str()),
        None => raw.get_text_or_empty("title"),
    };
    SeasonEpisodeBackup {
        episode_id: raw.get_i64("id"),
        title,
        aid: raw.get_i64_or("aid", 0),
        cid: raw.get_i64_or("cid", 0),
        bvid: raw.get_text("bvid"),
        archive_title,
        video_title: raw.get_text("videoTitle"),
        sort: raw.get_i64_or("order", fallback_sort),
        charging_pay: raw.get_i64_or("charging_pay", 0),
        member_first: raw.get_i64_or("member_first", 0),
        limited_free: match raw.get_bool("limited_free") {
            Some(b) => b,
            None => false,
        },
        published_at: episode_publish_time(raw),
    }
}

/// Episodes as they are saved, placed in the order of the answer.
pub open spec fn saved_episodes(list: Seq<JsonView>) -> Seq<EpisodeView> {
    Seq::new(list.len(), |i: int| saved_episode(list[i], (i as i64 + 1) as i64))
}

/// Episodes as they are saved.
pub fn build_episodes(list: &Vec<Json>) -> (r: Vec<SeasonEpisodeBackup>)
    requires
        list@.len() < i64::MAX,
    ensures
        episode_views(r@) == saved_episodes(list_view(list@)),
{
    let mut out: Vec<SeasonEpisodeBackup> = Vec::new();
    let mut i: usize = 0;
    while i < list.len()
        invariant
            i <= list@.len(),
            list@.len() < i64::MAX,
            out@.len() == i,
            forall|k: int|
                0 <= k < i ==> (#[trigger] out@[k])@ == saved_episode(list@[k]@, (k + 1) as i64),
        decreases list.len() - i,
    {
        out.push(build_episode_backup(&list[i], i as i64 + 1));
        i += 1;
    }
    assert(episode_views(out@) =~= saved_episodes(list_view(list@)));
    out
}

/// A section as it is saved, from its detail.
pub open spec fn saved_section(raw: JsonView) -> SectionView {
    let section = match field(raw, "section"@) {
        Some(v) => v,
        None => JsonView::Null,
    };
    let episodes = match items_at(raw, "episodes"@) {
        Some(list) => saved_episodes(list),
        None => Seq::empty(),
    };
    SectionView {
        section_id: or_number(integer_at(section, "id"@), 0),
        section_type: or_number(integer_at(section, "type"@), 0),
        title: text_or_empty(section, "title"@),
        order: or_number(integer_at(section, "order"@), 0),
        cover: text_or_empty(section, "cover"@),
        state: or_number(integer_at(section, "state"@), 0),
        part_state: or_number(integer_at(section, "partState"@), 0),
        ep_count: or_number(integer_at(section, "epCount"@), episodes.len() as i64),
        episodes,
    }
}

/// A list of episodes in an answer has fewer entries than an `i64` counts.
pub open spec fn countable(raw: JsonView, key: Seq<char>) -> bool {
    items_at(raw, key) matches Some(list) ==> list.len() < i64::MAX
}

/// A section as it is saved, from its detail.
pub fn build_section_backup(raw: &Json) -> (r: SeasonSectionBackup)
    requires
        countable(raw@, "episodes"@),
    ensures
        r@ == saved_section(raw@),
{
    let nothing = Json::Null;
    let section = match raw.get("section") {
        Some(v) => v,
        None => &nothing,
    };
    let episodes = match raw.get_array("episodes") {
        Some(list) => {
            assert(list_view(list@).len() == list@.len());
            build_episodes(list)
        },
        None => {
            let none: Vec<SeasonEpisodeBackup> = Vec::new();
            assert(episode_views(none@) =~= Seq::<EpisodeView>::empty());
            none
        },
    };
    assert(episode_views(episodes@).len() == episodes@.len());
    let count: i64 = episodes.len() as i64;
    SeasonSectionBackup {
        section_id: section.get_i64_or("id", 0),
        section_type: section.get_i64_or("type", 0),
        title: section.get_text_or_empty("title"),
        order: section.get_i64_or("order", 0),
        cover: section.get_text_or_empty("cover"),
        state: section.get_i64_or("state", 0),
        part_state: section.get_i64_or("partState", 0),
        ep_count: section.get_i64_or("epCount", count),
        episodes,
    }
}

// ---------------------------------------------------------------------------
// The list of seasons

/// How many seasons a page of the list holds.
pub const SEASON_PAGE_SIZE: usize = 30;

/// How many pages of the list are read.
pub const SEASON_PAGE_LIMIT: u64 = 50;

/// The parameters of the request for a page of the list.
pub fn season_page_params(page: u64) -> (r: Vec<(String, String)>)
    ensures
        pair_views(r@) == seq![
            ("pn"@, digits_of(page as nat)),
            ("ps"@, "30"@),
            ("order"@, "mtime"@),
            ("sort"@, "desc"@),
            ("draft"@, "1"@),
            ("source"@, "0"@),
        ],
{
    let digits = u64_digits(page);
    let number = to_text(digits.as_slice());
    let r: Vec<(String, String)> = vec![
        pair("pn", number.as_str()),
        pair("ps", "30"),
        pair("order", "mtime"),
        pair("sort", "desc"),
        pair("draft", "1"),
        pair("source", "0"),
    ];
    assert(pair_views(r@) =~= seq![
        ("pn"@, digits_of(page as nat)),
        ("ps"@, "30"@),
        ("order"@, "mtime"@),
        ("sort"@, "desc"@),
        ("draft"@, "1"@),
        ("source"@, "0"@),
    ]);
    r
}

/// The page behind a page with so many seasons, where there is one to read: a page that is not
/// full is the last one.
pub fn next_season_page(page: u64, found: usize) -> (r: Option<u64>)
    ensures
        r == (if found >= SEASON_PAGE_SIZE && page < SEASON_PAGE_LIMIT {
            Some((page + 1) as u64)
        } else {
            None
        }),
{
    if found >= SEASON_PAGE_SIZE && page < SEASON_PAGE_LIMIT {
        Some(page + 1)
    } else {
        None
    }
}

// ---------------------------------------------------------------------------
// Publish times

/// An episode with the publish time that is known of its archive, where it has none itself.
pub open spec fn timed(e: EpisodeView, times: Map<i64, i64>) -> EpisodeView {
    EpisodeView { published_at: known_time(e, times), ..e }
}

/// The publish time of an episode: its own, else that of its archive.
pub open spec fn known_time(e: EpisodeView, times: Map<i64, i64>) -> Option<i64> {
    match e.published_at {
        Some(t) => Some(t),
        None => if times.dom().contains(e.aid) {
            Some(times[e.aid])
        } else {
            None
        },
    }
}

/// Tells whether the publish time of an episode is filled in.
pub open spec fn fillable(e: EpisodeView, times: Map<i64, i64>) -> bool {
    e.published_at is None && times.dom().contains(e.aid)
}

/// The number of episodes whose publish time is filled in.
pub open spec fn fill_count(episodes: Seq<EpisodeView>, times: Map<i64, i64>) -> int
    decreases episodes.len(),
{
    if episodes.len() == 0 {
        0
    } else {
        fill_count(episodes.drop_last(), times) + (if fillable(episodes.last(), times) {
            1int
        } else {
            0
        })
    }
}

/// The number of episodes in all sections whose publish time is filled in.
pub open spec fn fill_total(sections: Seq<SectionView>, times: Map<i64, i64>) -> int
    decreases sections.len(),
{
    if sections.len() == 0 {
        0
    } else {
        fill_total(sections.drop_last(), times) + fill_count(sections.last().episodes, times)
    }
}

/// A section with the publish times that are known.
pub open spec fn timed_section(s: SectionView, times: Map<i64, i64>) -> SectionView {
    SectionView {
        episodes: Seq::new(s.episodes.len(), |i: int| timed(s.episodes[i], times)),
        ..s
    }
}

/// Sections with the publish times that are known.
pub open spec fn timed_sections(sections: Seq<SectionView>, times: Map<i64, i64>) -> Seq<
    SectionView,
> {
    Seq::new(sections.len(), |i: int| timed_section(sections[i], times))
}

fn time_of(times: &HashMap<i64, i64>, aid: i64) -> (r: Option<i64>)
    ensures
        r == (if times@.dom().contains(aid) {
            Some(times@[aid])
        } else {
            None
        }),
{
    match times.get(&aid) {
        Some(t) => Some(*t),
        None => None,
    }
}

fn fill_section(section: &SeasonSectionBackup, publish_times: &HashMap<i64, i64>) -> (r: (
    SeasonSectionBackup,
    usize,
))
    ensures
        r.0@ == timed_section(section@, publish_times@),
        r.1 == fill_count(section@.episodes, publish_times@),
        r.1 <= section@.episodes.len(),
{
    let mut copied = section.copy();
    let ghost before = section@.episodes;
    let mut episodes: Vec<SeasonEpisodeBackup> = Vec::new();
    let mut filled: usize = 0;
    let mut i: usize = 0;
    assert(before.take(0) =~= Seq::<EpisodeView>::empty());
    while i < section.episodes.len()
        invariant
            i <= section.episodes@.len(),
            before == episode_views(section.episodes@),
            episodes@.len() == i,
            filled <= i,
            filled == fill_count(before.take(i as int), publish_times@),
            forall|k: int|
                0 <= k < i ==> (#[trigger] episodes@[k])@ == timed(before[k], publish_times@),
        decreases section.episodes.len() - i,
    {
        let mut e = section.episodes[i].copy();
        assert(before[i as int] == e@);
        assert(before.take(i + 1).drop_last() =~= before.take(i as int));
        assert(before.take(i + 1).last() == e@);
        if e.published_at.is_none() {
            if let Some(t) = time_of(publish_times, e.aid) {
                e.published_at = Some(t);
                filled = filled + 1;
            }
        }
        episodes.push(e);
        i += 1;
    }
    assert(before.take(i as int) =~= before);
    copied.episodes = episodes;
    assert(copied@.episodes =~= timed_section(section@, publish_times@).episodes);
    (copied, filled)
}

/// The number of episodes in all sections.
pub open spec fn episode_total(sections: Seq<SectionView>) -> int
    decreases sections.len(),
{
    if sections.len() == 0 {
        0
    } else {
        episode_total(sections.drop_last()) + sections.last().episodes.len()
    }
}

/// Fills in the publish times that are known, and tells how many.
pub fn fill_section_episode_publish_times(
    sections: &mut Vec<SeasonSectionBackup>,
    publish_times: &HashMap<i64, i64>,
) -> (r: usize)
    requires
        episode_total(section_views(old(sections)@)) <= usize::MAX,
    ensures
        section_views(final(sections)@) == timed_sections(
            section_views(old(sections)@),
            publish_times@,
        ),
        r == fill_total(section_views(old(sections)@), publish_times@),
{
    let ghost before = section_views(sections@);
    let mut out: Vec<SeasonSectionBackup> = Vec::new();
    let mut filled: usize = 0;
    let mut i: usize = 0;
    assert(before.take(0) =~= Seq::<SectionView>::empty());
    while i < sections.len()
        invariant
            i <= sections@.len(),
            sections@ == old(sections)@,
            before == section_views(sections@),
            episode_total(before) <= usize::MAX,
            filled == fill_total(before.take(i as int), publish_times@),
            filled <= episode_total(before.take(i as int)),
            out@.len() == i,
            forall|k: int|
                0 <= k < i ==> (#[trigger] out@[k])@ == timed_section(before[k], publish_times@),
        decreases sections.len() - i,
    {
        let (section, count): (SeasonSectionBackup, usize) = fill_section(
            &sections[i],
            publish_times,
        );
        assert(before[i as int] == sections@[i as int]@);
        assert(before.take(i + 1).drop_last() =~= before.take(i as int));
        assert(before.take(i + 1).last() == before[i as int]);
        proof {
            lemma_episode_total_prefix(before, i + 1);
        }
        filled = filled + count;
        out.push(section);
        i += 1;
    }
    assert(before.take(i as int) =~= before);
    assert(section_views(out@) =~= timed_sections(before, publish_times@));
    *sections = out;
    filled
}

proof fn lemma_episode_total_prefix(sections: Seq<SectionView>, k: int)
    requires
        0 <= k <= sections.len(),
    ensures
        0 <= episode_total(sections.take(k)) <= episode_total(sections),
    decreases sections.len(),
{
    if k == sections.len() {
        assert(sections.take(k) =~= sections);
        if sections.len() > 0 {
            lemma_episode_total_prefix(sections.drop_last(), sections.len() - 1);
            assert(sections.drop_last().take(sections.len() - 1) =~= sections.drop_last());
        }
    } else {
        lemma_episode_total_prefix(sections.drop_last(), k);
        assert(sections.drop_last().take(k) =~= sections.take(k));
    }
}

/// Publish times that are there already are never changed.
pub proof fn law_fill_keeps_times(e: EpisodeView, times: Map<i64, i64>)
    requires
        e.published_at is Some,
    ensures
        timed(e, times) == e,
{
}

/// Filling in publish times gives exactly the episodes without one whose archive has one that
/// time, and changes nothing else of the sections.
pub proof fn law_fill_changes_times_alone(
    sections: Seq<SectionView>,
    times: Map<i64, i64>,
    i: int,
    k: int,
)
    requires
        0 <= i < sections.len(),
        0 <= k < sections[i].episodes.len(),
    ensures
        ({
            let after = timed_sections(sections, times);
            let e = sections[i].episodes[k];
            &&& after.len() == sections.len()
            &&& after[i] == (SectionView { episodes: after[i].episodes, ..sections[i] })
            &&& after[i].episodes.len() == sections[i].episodes.len()
            &&& after[i].episodes[k] == (EpisodeView {
                published_at: if e.published_at is None && times.dom().contains(e.aid) {
                    Some(times[e.aid])
                } else {
                    e.published_at
                },
                ..e
            })
        }),
{
}

/// Filling in publish times a second time finds nothing to fill in, and changes nothing.
pub proof fn law_fill_once(sections: Seq<SectionView>, times: Map<i64, i64>)
    ensures
        fill_total(timed_sections(sections, times), times) == 0,
        timed_sections(timed_sections(sections, times), times) == timed_sections(sections, times),
    decreases sections.len(),
{
    let once = timed_sections(sections, times);
    let twice = timed_sections(once, times);
    assert forall|i: int| 0 <= i < sections.len() implies #[trigger] twice[i] == once[i] by {
        assert(twice[i].episodes =~= once[i].episodes);
    }
    assert(twice =~= once);
    if sections.len() > 0 {
        law_fill_once(sections.drop_last(), times);
        assert(once.drop_last() =~= timed_sections(sections.drop_last(), times));
        lemma_nothing_to_fill(sections.last().episodes, times);
    }
}

proof fn lemma_nothing_to_fill(episodes: Seq<EpisodeView>, times: Map<i64, i64>)
    ensures
        fill_count(Seq::new(episodes.len(), |i: int| timed(episodes[i], times)), times) == 0,
    decreases episodes.len(),
{
    let done = Seq::new(episodes.len(), |i: int| timed(episodes[i], times));
    if episodes.len() > 0 {
        let rest = episodes.drop_last();
        lemma_nothing_to_fill(rest, times);
        assert(done.drop_last() =~= Seq::new(rest.len(), |i: int| timed(rest[i], times)));
    }
}

// ---------------------------------------------------------------------------
// The order of episodes

/// The mode in which episodes are ordered: by publish time up or down, else as saved.
pub open spec fn sort_mode(value: Option<Seq<char>>) -> Seq<char> {
    match value {
        Some(v) => if v == "publish_asc"@ || v == "publish_desc"@ {
            v
        } else {
            "backup"@
        },
        None => "backup"@,
    }
}

/// The mode in which episodes are ordered.
pub fn normalize_episode_sort_mode(value: Option<&str>) -> (r: String)
    ensures
        r@ == sort_mode(
            match value {
                Some(v) => Some(v@),
                None => None,
            },
        ),
{
    match value {
        Some(v) => if text_eq(v, "publish_asc") || text_eq(v, "publish_desc") {
            copy_text(v)
        } else {
            copy_text("backup")
        },
        None => copy_text("backup"),
    }
}

/// Tells whether a time strictly precedes another: known times come before unknown ones, and
/// are ordered up or down.
pub open spec fn precedes(a: Option<i64>, b: Option<i64>, descending: bool) -> bool {
    match (a, b) {
        (Some(x), Some(y)) => if descending {
            x > y
        } else {
            x < y
        },
        (Some(_), None) => true,
        _ => false,
    }
}

/// The place of a new entry in an ordered list of entries: behind all that it does not
/// precede.
pub open spec fn insert_at(
    order: Seq<int>,
    keys: Seq<Option<i64>>,
    x: int,
    descending: bool,
) -> int
    decreases order.len(),
{
    if order.len() > 0 && precedes(keys[x], keys[order.last()], descending) {
        insert_at(order.drop_last(), keys, x, descending)
    } else {
        order.len() as int
    }
}

/// The first `n` positions in the order of their times; equal times keep their order.
pub open spec fn time_order(keys: Seq<Option<i64>>, n: nat, descending: bool) -> Seq<int>
    decreases n,
{
    if n == 0 {
        Seq::empty()
    } else {
        let before = time_order(keys, (n - 1) as nat, descending);
        before.insert(insert_at(before, keys, n - 1, descending), n - 1)
    }
}

/// Tells whether one position comes before another in the order of times.
pub open spec fn comes_before(keys: Seq<Option<i64>>, a: int, b: int, descending: bool) -> bool {
    precedes(keys[a], keys[b], descending) || (!precedes(keys[b], keys[a], descending) && a < b)
}

proof fn lemma_insert_at(order: Seq<int>, keys: Seq<Option<i64>>, x: int, descending: bool)
    ensures
        0 <= insert_at(order, keys, x, descending) <= order.len(),
        forall|k: int|
            insert_at(order, keys, x, descending) <= k < order.len() ==> precedes(
                keys[x],
                keys[#[trigger] order[k]],
                descending,
            ),
        insert_at(order, keys, x, descending) > 0 ==> !precedes(
            keys[x],
            keys[order[insert_at(order, keys, x, descending) - 1]],
            descending,
        ),
    decreases order.len(),
{
    if order.len() > 0 && precedes(keys[x], keys[order.last()], descending) {
        let init = order.drop_last();
        lemma_insert_at(init, keys, x, descending);
        let at = insert_at(order, keys, x, descending);
        assert forall|k: int| at <= k < order.len() implies precedes(
            keys[x],
            keys[#[trigger] order[k]],
            descending,
        ) by {
            if k < init.len() {
                assert(init[k] == order[k]);
            }
        }
    }
}

/// The order of times holds every position once, and each comes before those behind it: the
/// known times first, up or down, equal and unknown times in the order in which they stood.
pub proof fn law_time_order(keys: Seq<Option<i64>>, n: nat, descending: bool)
    requires
        n <= keys.len(),
    ensures
        time_order(keys, n, descending).len() == n,
        forall|k: int| 0 <= k < n ==> 0 <= #[trigger] time_order(keys, n, descending)[k] < n,
        forall|i: int, j: int|
            0 <= i < j < n ==> #[trigger] comes_before(
                keys,
                time_order(keys, n, descending)[i],
                time_order(keys, n, descending)[j],
                descending,
            ),
        time_order(keys, n, descending).no_duplicates(),
    decreases n,
{
    if n > 0 {
        let m = (n - 1) as nat;
        law_time_order(keys, m, descending);
        let before = time_order(keys, m, descending);
        let x = n - 1;
        let at = insert_at(before, keys, x, descending);
        lemma_insert_at(before, keys, x, descending);
        let after = before.insert(at, x);
        assert(after == time_order(keys, n, descending));
        assert forall|k: int| 0 <= k < n implies 0 <= #[trigger] after[k] < n by {
            if k < at {
                assert(after[k] == before[k]);
            } else if k > at {
                assert(after[k] == before[k - 1]);
            }
        }
        assert forall|i: int, j: int| 0 <= i < j < n implies #[trigger] comes_before(
            keys,
            after[i],
            after[j],
            descending,
        ) by {
            if i != at && j != at {
                let i2 = if i < at {
                    i
                } else {
                    i - 1
                };
                let j2 = if j < at {
                    j
                } else {
                    j - 1
                };
                assert(comes_before(keys, before[i2], before[j2], descending));
            } else if i == at {
                assert(precedes(keys[x], keys[before[j - 1]], descending));
            } else {
                assert(after[i] == before[i]);
                assert(0 <= before[i] < m);
                let last = before[at - 1];
                assert(!precedes(keys[x], keys[last], descending));
                if i < at - 1 {
                    assert(comes_before(keys, before[i], last, descending));
                }
                assert(!precedes(keys[x], keys[before[i]], descending));
            }
        }
        assert forall|i: int, j: int| 0 <= i < n && 0 <= j < n && i != j implies after[i]
            != after[j] by {
            let i2 = if i < at {
                i
            } else {
                i - 1
            };
            let j2 = if j < at {
                j
            } else {
                j - 1
            };
            if i != at && j != at {
                assert(before[i2] != before[j2]);
            }
        }
    }
}

/// The publish times of a list of episodes.
pub open spec fn time_keys(episodes: Seq<EpisodeView>, times: Map<i64, i64>) -> Seq<Option<i64>> {
    Seq::new(episodes.len(), |i: int| known_time(episodes[i], times))
}

/// The number of unknown times.
pub open spec fn missing(keys: Seq<Option<i64>>) -> int
    decreases keys.len(),
{
    if keys.len() == 0 {
        0
    } else {
        missing(keys.drop_last()) + (if keys.last() is None {
            1int
        } else {
            0
        })
    }
}

/// The episodes in the order of their publish times, with the times that are known and new
/// places.
pub open spec fn reordered(
    episodes: Seq<EpisodeView>,
    times: Map<i64, i64>,
    descending: bool,
) -> Seq<EpisodeView> {
    let keys = time_keys(episodes, times);
    let order = time_order(keys, keys.len(), descending);
    Seq::new(
        episodes.len(),
        |k: int|
            EpisodeView {
                published_at: keys[order[k]],
                sort: (k + 1) as i64,
                ..episodes[order[k]]
            },
    )
}

fn time_precedes(a: Option<i64>, b: Option<i64>, descending: bool) -> (r: bool)
    ensures
        r == precedes(a, b, descending),
{
    match a {
        Some(x) => match b {
            Some(y) => if descending {
                x > y
            } else {
                x < y
            },
            None => true,
        },
        None => false,
    }
}

/// The views of a list of positions.
pub open spec fn int_views(v: Seq<usize>) -> Seq<int> {
    Seq::new(v.len(), |i: int| v[i] as int)
}

proof fn lemma_insert_at_prefix(
    order: Seq<int>,
    keys: Seq<Option<i64>>,
    x: int,
    descending: bool,
    k: int,
)
    requires
        0 <= k <= order.len(),
        forall|j: int|
            k <= j < order.len() ==> precedes(keys[x], keys[#[trigger] order[j]], descending),
        k > 0 ==> !precedes(keys[x], keys[order[k - 1]], descending),
    ensures
        insert_at(order, keys, x, descending) == k,
    decreases order.len(),
{
    if k < order.len() {
        assert(precedes(keys[x], keys[order[order.len() - 1]], descending));
        let init = order.drop_last();
        assert forall|j: int| k <= j < init.len() implies precedes(
            keys[x],
            keys[#[trigger] init[j]],
            descending,
        ) by {
            assert(init[j] == order[j]);
        }
        if k > 0 {
            assert(init[k - 1] == order[k - 1]);
        }
        lemma_insert_at_prefix(init, keys, x, descending, k);
    }
}

fn order_by_time(keys: &Vec<Option<i64>>, descending: bool) -> (r: Vec<usize>)
    ensures
        int_views(r@) == time_order(keys@, keys@.len(), descending),
        r@.len() == keys@.len(),
        forall|k: int| 0 <= k < r@.len() ==> #[trigger] r@[k] < keys@.len(),
{
    let mut order: Vec<usize> = Vec::new();
    let mut i: usize = 0;
    assert(int_views(order@) =~= Seq::<int>::empty());
    while i < keys.len()
        invariant
            i <= keys@.len(),
            int_views(order@) == time_order(keys@, i as nat, descending),
            order@.len() == i,
        decreases keys.len() - i,
    {
        let ghost views = int_views(order@);
        proof {
            law_time_order(keys@, i as nat, descending);
            assert forall|j: int| 0 <= j < order@.len() implies #[trigger] order@[j]
                < keys@.len() by {
                assert(views[j] == order@[j]);
            }
        }
        let mut k: usize = order.len();
        while k > 0 && time_precedes(keys[i], keys[order[k - 1]], descending)
            invariant
                k <= order@.len(),
                i < keys@.len(),
                views == int_views(order@),
                order@.len() == i,
                forall|j: int| 0 <= j < i ==> 0 <= #[trigger] views[j] < i,
                forall|j: int| 0 <= j < order@.len() ==> #[trigger] order@[j] < keys@.len(),
                forall|j: int|
                    k <= j < views.len() ==> precedes(
                        keys@[i as int],
                        keys@[#[trigger] views[j]],
                        descending,
                    ),
            decreases k,
        {
            assert(views[k - 1] == order@[k - 1]);
            k -= 1;
        }
        proof {
            if k > 0 {
                assert(views[k - 1] == order@[k - 1]);
            }
            lemma_insert_at_prefix(views, keys@, i as int, descending, k as int);
        }
        order.insert(k, i);
        assert(int_views(order@) =~= views.insert(k as int, i as int));
        i += 1;
    }
    proof {
        law_time_order(keys@, keys@.len(), descending);
        assert forall|k: int| 0 <= k < order@.len() implies #[trigger] order@[k] < keys@.len() by {
            assert(int_views(order@)[k] == order@[k]);
        }
    }
    order
}

/// Orders the episodes of a section by their publish times, and tells how many have none.
pub fn sort_section_episodes_by_publish_time(
    section: &mut SeasonSectionBackup,
    publish_times: &HashMap<i64, i64>,
    sort_mode: &str,
) -> (r: usize)
    ensures
        final(section)@ == (SectionView {
            episodes: reordered(
                old(section)@.episodes,
                publish_times@,
                sort_mode@ == "publish_desc"@,
            ),
            ..old(section)@
        }),
        r == missing(time_keys(old(section)@.episodes, publish_times@)),
{
    let descending: bool = text_eq(sort_mode, "publish_desc");
    let ghost before = section@.episodes;
    let ghost all_keys = time_keys(before, publish_times@);
    let mut keys: Vec<Option<i64>> = Vec::new();
    let mut missing_count: usize = 0;
    let mut i: usize = 0;
    assert(all_keys.take(0) =~= Seq::<Option<i64>>::empty());
    while i < section.episodes.len()
        invariant
            i <= section.episodes@.len(),
            *section == *old(section),
            before == episode_views(section.episodes@),
            all_keys == time_keys(before, publish_times@),
            keys@.len() == i,
            missing_count <= i,
            missing_count == missing(all_keys.take(i as int)),
            forall|k: int| 0 <= k < i ==> keys@[k] == all_keys[k],
        decreases section.episodes.len() - i,
    {
        assert(before[i as int] == section.episodes@[i as int]@);
        assert(all_keys.take(i + 1).drop_last() =~= all_keys.take(i as int));
        let key: Option<i64> = match section.episodes[i].published_at {
            Some(t) => Some(t),
            None => time_of(publish_times, section.episodes[i].aid),
        };
        assert(key == all_keys[i as int]);
        if key.is_none() {
            missing_count = missing_count + 1;
        }
        keys.push(key);
        i += 1;
    }
    assert(all_keys.take(i as int) =~= all_keys);
    assert(keys@ =~= all_keys);
    let order = order_by_time(&keys, descending);
    let mut episodes: Vec<SeasonEpisodeBackup> = Vec::new();
    let mut k: usize = 0;
    let ghost goal = reordered(before, publish_times@, descending);
    while k < order.len()
        invariant
            k <= order@.len(),
            *section == *old(section),
            before == episode_views(section.episodes@),
            order@.len() == before.len(),
            keys@ == all_keys,
            all_keys == time_keys(before, publish_times@),
            int_views(order@) == time_order(all_keys, all_keys.len(), descending),
            forall|j: int| 0 <= j < order@.len() ==> #[trigger] order@[j] < keys@.len(),
            goal == reordered(before, publish_times@, descending),
            episodes@.len() == k,
            forall|j: int| 0 <= j < k ==> (#[trigger] episodes@[j])@ == goal[j],
        decreases order.len() - k,
    {
        let at: usize = order[k];
        assert(int_views(order@)[k as int] == at);
        let mut e = section.episodes[at].copy();
        assert(before[at as int] == e@);
        e.published_at = keys[at];
        e.sort = (k + 1) as i64;
        assert(e@ == goal[k as int]);
        episodes.push(e);
        k += 1;
    }
    assert(episode_views(episodes@) =~= goal);
    section.episodes = episodes;
    missing_count
}

/// The publish times that the episodes of a list tell, the last one for each archive.
pub open spec fn told_times(episodes: Seq<EpisodeView>, times: Map<i64, i64>) -> Map<i64, i64>
    decreases episodes.len(),
{
    if episodes.len() == 0 {
        times
    } else {
        let before = told_times(episodes.drop_last(), times);
        match episodes.last().published_at {
            Some(t) => before.insert(episodes.last().aid, t),
            None => before,
        }
    }
}

/// The publish times that the episodes of all sections tell, the last one for each archive.
pub open spec fn all_times(sections: Seq<SectionView>) -> Map<i64, i64>
    decreases sections.len(),
{
    if sections.len() == 0 {
        Map::empty()
    } else {
        told_times(sections.last().episodes, all_times(sections.drop_last()))
    }
}

/// The number of episodes with an archive whose publish time is not known.
pub open spec fn unknown_count(episodes: Seq<EpisodeView>, times: Map<i64, i64>) -> int
    decreases episodes.len(),
{
    if episodes.len() == 0 {
        0
    } else {
        unknown_count(episodes.drop_last(), times) + (if episodes.last().aid > 0
            && !times.dom().contains(episodes.last().aid) {
            1int
        } else {
            0
        })
    }
}

/// The number of such episodes in all sections.
pub open spec fn unknown_total(sections: Seq<SectionView>, times: Map<i64, i64>) -> int
    decreases sections.len(),
{
    if sections.len() == 0 {
        0
    } else {
        unknown_total(sections.drop_last(), times) + unknown_count(sections.last().episodes, times)
    }
}

/// The number of episodes in all sections without a publish time.
pub open spec fn missing_total(sections: Seq<SectionView>, times: Map<i64, i64>) -> int
    decreases sections.len(),
{
    if sections.len() == 0 {
        0
    } else {
        missing_total(sections.drop_last(), times) + missing(
            time_keys(sections.last().episodes, times),
        )
    }
}

/// The sections with their episodes in the order of the mode.
pub open spec fn restored_order(sections: Seq<SectionView>, mode: Seq<char>) -> Seq<SectionView> {
    if mode == "backup"@ {
        sections
    } else {
        Seq::new(
            sections.len(),
            |i: int|
                SectionView {
                    episodes: reordered(
                        sections[i].episodes,
                        all_times(sections),
                        mode == "publish_desc"@,
                    ),
                    ..sections[i]
                },
        )
    }
}

/// The warning about episodes without a publish time.
pub open spec fn missing_warning(count: int) -> Seq<char> {
    decimal(count) + " 个视频缺少投稿时间，已排在已知投稿时间之后并保留原顺序；请重新备份后再按投稿时间恢复会更准确"@
}

/// The warnings that ordering the sections gives.
pub open spec fn order_warnings(sections: Seq<SectionView>, mode: Seq<char>) -> Seq<Seq<char>> {
    let times = all_times(sections);
    let lacking = missing_total(sections, times);
    let unknown = unknown_total(sections, times);
    if mode == "backup"@ || lacking == 0 {
        Seq::empty()
    } else {
        seq![
            missing_warning(
                if lacking < unknown {
                    unknown
                } else {
                    lacking
                },
            ),
        ]
    }
}

fn collect_times(sections: &Vec<SeasonSectionBackup>) -> (r: HashMap<i64, i64>)
    ensures
        r@ == all_times(section_views(sections@)),
{
    let mut times: HashMap<i64, i64> = HashMap::new();
    let ghost all = section_views(sections@);
    let mut i: usize = 0;
    assert(all.take(0) =~= Seq::<SectionView>::empty());
    while i < sections.len()
        invariant
            i <= sections@.len(),
            all == section_views(sections@),
            times@ == all_times(all.take(i as int)),
        decreases sections.len() - i,
    {
        assert(all.take(i + 1).drop_last() =~= all.take(i as int));
        let ghost base = times@;
        let ghost eps = sections@[i as int]@.episodes;
        assert(all.take(i + 1).last().episodes == eps);
        let mut k: usize = 0;
        assert(eps.take(0) =~= Seq::<EpisodeView>::empty());
        while k < sections[i as usize].episodes.len()
            invariant
                i < sections@.len(),
                k <= sections@[i as int].episodes@.len(),
                eps == episode_views(sections@[i as int].episodes@),
                times@ == told_times(eps.take(k as int), base),
            decreases sections@[i as int].episodes@.len() - k,
        {
            assert(eps.take(k + 1).drop_last() =~= eps.take(k as int));
            assert(eps.take(k + 1).last() == sections@[i as int].episodes@[k as int]@);
            if let Some(t) = sections[i].episodes[k].published_at {
                times.insert(sections[i].episodes[k].aid, t);
            }
            k += 1;
        }
        assert(eps.take(k as int) =~= eps);
        i += 1;
    }
    assert(all.take(i as int) =~= all);
    times
}

fn count_unknown(sections: &Vec<SeasonSectionBackup>, times: &HashMap<i64, i64>) -> (r: usize)
    requires
        episode_total(section_views(sections@)) <= usize::MAX,
    ensures
        r == unknown_total(section_views(sections@), times@),
{
    let ghost all = section_views(sections@);
    let mut count: usize = 0;
    let mut i: usize = 0;
    assert(all.take(0) =~= Seq::<SectionView>::empty());
    while i < sections.len()
        invariant
            i <= sections@.len(),
            all == section_views(sections@),
            episode_total(all) <= usize::MAX,
            count == unknown_total(all.take(i as int), times@),
            count <= episode_total(all.take(i as int)),
        decreases sections.len() - i,
    {
        assert(all.take(i + 1).drop_last() =~= all.take(i as int));
        let ghost eps = sections@[i as int]@.episodes;
        assert(all.take(i + 1).last().episodes == eps);
        let ghost base = count;
        proof {
            lemma_episode_total_prefix(all, i + 1);
        }
        let mut k: usize = 0;
        assert(eps.take(0) =~= Seq::<EpisodeView>::empty());
        while k < sections[i].episodes.len()
            invariant
                i < sections@.len(),
                k <= sections@[i as int].episodes@.len(),
                eps == episode_views(sections@[i as int].episodes@),
                base + eps.len() <= usize::MAX,
                base <= count <= base + k,
                count == base + unknown_count(eps.take(k as int), times@),
            decreases sections@[i as int].episodes@.len() - k,
        {
            assert(eps.take(k + 1).drop_last() =~= eps.take(k as int));
            assert(eps.take(k + 1).last() == sections@[i as int].episodes@[k as int]@);
            let aid: i64 = sections[i].episodes[k].aid;
            if aid > 0 && !times.contains_key(&aid) {
                count = count + 1;
            }
            k += 1;
        }
        assert(eps.take(k as int) =~= eps);
        i += 1;
    }
    assert(all.take(i as int) =~= all);
    count
}

proof fn lemma_missing_bound(keys: Seq<Option<i64>>)
    ensures
        0 <= missing(keys) <= keys.len(),
    decreases keys.len(),
{
    if keys.len() > 0 {
        lemma_missing_bound(keys.drop_last());
    }
}

/// Orders the episodes of all sections in a mode, and warns where publish times are missing.
pub fn apply_restore_episode_sort(
    sections: &mut Vec<SeasonSectionBackup>,
    sort_mode: &str,
    warnings: &mut Vec<String>,
)
    requires
        episode_total(section_views(old(sections)@)) <= usize::MAX,
    ensures
        section_views(final(sections)@) == restored_order(
            section_views(old(sections)@),
            sort_mode@,
        ),
        texts(final(warnings)@) == texts(old(warnings)@) + order_warnings(
            section_views(old(sections)@),
            sort_mode@,
        ),
{
    let ghost all = section_views(sections@);
    if text_eq(sort_mode, "backup") {
        assert(texts(warnings@) + Seq::<Seq<char>>::empty() =~= texts(warnings@));
        return ;
    }
    let times = collect_times(sections);
    let unknown: usize = count_unknown(sections, &times);
    let mut out: Vec<SeasonSectionBackup> = Vec::new();
    let mut lacking: usize = 0;
    let mut i: usize = 0;
    assert(all.take(0) =~= Seq::<SectionView>::empty());
    while i < sections.len()
        invariant
            i <= sections@.len(),
            sections@ == old(sections)@,
            all == section_views(sections@),
            times@ == all_times(all),
            episode_total(all) <= usize::MAX,
            lacking == missing_total(all.take(i as int), times@),
            lacking <= episode_total(all.take(i as int)),
            out@.len() == i,
            forall|k: int|
                0 <= k < i ==> (#[trigger] out@[k])@ == (SectionView {
                    episodes: reordered(
                        all[k].episodes,
                        times@,
                        sort_mode@ == "publish_desc"@,
                    ),
                    ..all[k]
                }),
        decreases sections.len() - i,
    {
        assert(all.take(i + 1).drop_last() =~= all.take(i as int));
        assert(all.take(i + 1).last() == all[i as int]);
        assert(all[i as int] == sections@[i as int]@);
        proof {
            lemma_episode_total_prefix(all, i + 1);
            lemma_missing_bound(time_keys(all[i as int].episodes, times@));
        }
        let mut section = sections[i].copy();
        let n: usize = sort_section_episodes_by_publish_time(&mut section, &times, sort_mode);
        lacking = lacking + n;
        out.push(section);
        i += 1;
    }
    assert(all.take(i as int) =~= all);
    assert(section_views(out@) =~= restored_order(all, sort_mode@));
    *sections = out;
    if lacking > 0 {
        let count: usize = if lacking < unknown {
            unknown
        } else {
            lacking
        };
        let mut message = u64_digits(count as u64);
        extend_text(
            &mut message,
            " 个视频缺少投稿时间，已排在已知投稿时间之后并保留原顺序；请重新备份后再按投稿时间恢复会更准确",
        );
        let ghost before = texts(warnings@);
        warnings.push(to_text(message.as_slice()));
        assert(texts(warnings@) =~= before + order_warnings(all, sort_mode@));
    } else {
        assert(texts(warnings@) + Seq::<Seq<char>>::empty() =~= texts(warnings@));
    }
}

// ---------------------------------------------------------------------------
// The sections of a saved season

/// The place of a new section among ordered ones: behind all whose order is not greater.
pub open spec fn section_place(sections: Seq<SectionView>, order: i64) -> int
    decreases sections.len(),
{
    if sections.len() > 0 && order < sections.last().order {
        section_place(sections.drop_last(), order)
    } else {
        sections.len() as int
    }
}

/// The sections by their order; equal ones stay as they stood.
pub open spec fn by_order(sections: Seq<SectionView>) -> Seq<SectionView>
    decreases sections.len(),
{
    if sections.len() == 0 {
        Seq::empty()
    } else {
        let before = by_order(sections.drop_last());
        before.insert(section_place(before, sections.last().order), sections.last())
    }
}

proof fn lemma_section_place(sections: Seq<SectionView>, order: i64)
    ensures
        0 <= section_place(sections, order) <= sections.len(),
        forall|k: int|
            section_place(sections, order) <= k < sections.len() ==> order < (
            #[trigger] sections[k]).order,
        section_place(sections, order) > 0 ==> order >= sections[section_place(
            sections,
            order,
        ) - 1].order,
    decreases sections.len(),
{
    if sections.len() > 0 && order < sections.last().order {
        let init = sections.drop_last();
        lemma_section_place(init, order);
        assert forall|k: int| section_place(sections, order) <= k < sections.len() implies order < (
        #[trigger] sections[k]).order by {
            if k < init.len() {
                assert(init[k] == sections[k]);
            }
        }
    }
}

proof fn lemma_section_place_unique(sections: Seq<SectionView>, order: i64, at: int)
    requires
        0 <= at <= sections.len(),
        forall|k: int| at <= k < sections.len() ==> order < (#[trigger] sections[k]).order,
        at > 0 ==> order >= sections[at - 1].order,
    ensures
        section_place(sections, order) == at,
    decreases sections.len(),
{
    if at < sections.len() {
        assert(order < sections[sections.len() - 1].order);
        let init = sections.drop_last();
        assert forall|k: int| at <= k < init.len() implies order < (#[trigger] init[k]).order by {
            assert(init[k] == sections[k]);
        }
        if at > 0 {
            assert(init[at - 1] == sections[at - 1]);
        }
        lemma_section_place_unique(init, order, at);
    }
}

/// Ordering sections loses none, and puts them in ascending order.
pub proof fn law_sections_ordered(sections: Seq<SectionView>)
    ensures
        by_order(sections).len() == sections.len(),
        by_order(sections).to_multiset() == sections.to_multiset(),
        forall|i: int, j: int|
            0 <= i < j < sections.len() ==> (#[trigger] by_order(sections)[i]).order <= (
            #[trigger] by_order(sections)[j]).order,
    decreases sections.len(),
{
    broadcast use vstd::seq_lib::group_to_multiset_ensures;

    if sections.len() > 0 {
        let init = sections.drop_last();
        let x = sections.last();
        law_sections_ordered(init);
        let before = by_order(init);
        let at = section_place(before, x.order);
        lemma_section_place(before, x.order);
        let after = before.insert(at, x);
        assert(sections =~= init.push(x));
        assert(after.to_multiset() =~= before.to_multiset().insert(x)) by {
            vstd::seq_lib::to_multiset_insert(before, at, x);
        }
        assert forall|i: int, j: int| 0 <= i < j < after.len() implies (#[trigger] after[i]).order
            <= (#[trigger] after[j]).order by {
            let i2 = if i < at {
                i
            } else {
                i - 1
            };
            let j2 = if j < at {
                j
            } else {
                j - 1
            };
            if i != at && j != at {
                assert(before[i2].order <= before[j2].order);
            } else if i == at {
                assert(x.order < before[j2].order);
            } else {
                if i < at - 1 {
                    assert(before[i].order <= before[at - 1].order);
                }
            }
        }
    }
}

/// Orders sections; equal ones stay as they stood.
pub fn sort_sections(sections: &Vec<SeasonSectionBackup>) -> (r: Vec<SeasonSectionBackup>)
    ensures
        section_views(r@) == by_order(section_views(sections@)),
{
    let ghost all = section_views(sections@);
    let mut out: Vec<SeasonSectionBackup> = Vec::new();
    let mut i: usize = 0;
    assert(all.take(0) =~= Seq::<SectionView>::empty());
    assert(section_views(out@) =~= Seq::<SectionView>::empty());
    while i < sections.len()
        invariant
            i <= sections@.len(),
            all == section_views(sections@),
            section_views(out@) == by_order(all.take(i as int)),
        decreases sections.len() - i,
    {
        let ghost before = section_views(out@);
        let section = sections[i].copy();
        let order: i64 = section.order;
        assert(all.take(i + 1).drop_last() =~= all.take(i as int));
        assert(all.take(i + 1).last() == section@);
        let mut k: usize = out.len();
        while k > 0 && order < out[k - 1].order
            invariant
                k <= out@.len(),
                before == section_views(out@),
                forall|j: int| k <= j < before.len() ==> order < (#[trigger] before[j]).order,
            decreases k,
        {
            assert(before[k - 1] == out@[k - 1]@);
            k -= 1;
        }
        proof {
            if k > 0 {
                assert(before[k - 1] == out@[k - 1]@);
            }
            lemma_section_place_unique(before, order, k as int);
        }
        let ghost added = section@;
        out.insert(k, section);
        assert(section_views(out@) =~= before.insert(k as int, added));
        i += 1;
    }
    assert(all.take(i as int) =~= all);
    out
}

/// The one section of a saved season that has episodes but no sections.
pub open spec fn only_section(section_id: i64, episodes: Seq<EpisodeView>) -> SectionView {
    SectionView {
        section_id,
        section_type: 0,
        title: "正片"@,
        order: 1,
        cover: Seq::empty(),
        state: 0,
        part_state: 0,
        ep_count: episodes.len() as i64,
        episodes,
    }
}

/// A section that holds all the episodes of a season.
pub fn make_only_section(section_id: i64, episodes: Vec<SeasonEpisodeBackup>) -> (r:
    SeasonSectionBackup)
    ensures
        r@ == only_section(section_id, episode_views(episodes@)),
{
    let ep_count: i64 = episodes.len() as i64;
    assert(episode_views(episodes@).len() == episodes@.len());
    SeasonSectionBackup {
        section_id,
        section_type: 0,
        title: copy_text("正片"),
        order: 1,
        cover: String::new(),
        state: 0,
        part_state: 0,
        ep_count,
        episodes,
    }
}

/// The sections that a saved season is restored with.
pub open spec fn restore_sections(backup: SeasonBackup) -> Seq<SectionView> {
    if backup.sections@.len() > 0 {
        by_order(section_views(backup.sections@))
    } else if backup.episodes@.len() == 0 {
        Seq::empty()
    } else {
        seq![only_section(backup.section_id, episode_views(backup.episodes@))]
    }
}

/// The sections that a saved season is restored with.
pub fn backup_sections_for_restore(backup: &SeasonBackup) -> (r: Vec<SeasonSectionBackup>)
    ensures
        section_views(r@) == restore_sections(*backup),
{
    if backup.sections.len() > 0 {
        return sort_sections(&backup.sections);
    }
    let mut out: Vec<SeasonSectionBackup> = Vec::new();
    if backup.episodes.len() > 0 {
        out.push(make_only_section(backup.section_id, copy_episodes(&backup.episodes)));
    }
    assert(section_views(out@) =~= restore_sections(*backup));
    out
}

/// Tells whether any section is of the ordinary type.
pub open spec fn has_plain_section(sections: Seq<SectionView>) -> bool {
    exists|i: int| 0 <= i < sections.len() && (#[trigger] sections[i]).section_type == 0
}

/// Whether a restored season goes without sections: as saved, else where it has only one and
/// that is not of the ordinary type.
pub open spec fn no_section_mode(saved: Option<i64>, sections: Seq<SectionView>) -> i64 {
    match saved {
        Some(n) => n,
        None => if sections.len() > 1 || has_plain_section(sections) {
            0
        } else {
            1
        },
    }
}

/// Whether a restored season goes without sections.
pub fn restore_no_section(backup: &SeasonBackup, sections: &Vec<SeasonSectionBackup>) -> (r: i64)
    ensures
        r == no_section_mode(backup.no_section, section_views(sections@)),
{
    if let Some(n) = backup.no_section {
        return n;
    }
    let ghost all = section_views(sections@);
    assert(all.len() == sections@.len());
    if sections.len() > 1 {
        return 0;
    }
    let mut i: usize = 0;
    while i < sections.len()
        invariant
            i <= sections@.len(),
            all == section_views(sections@),
            sections@.len() <= 1,
            backup.no_section is None,
            forall|k: int| 0 <= k < i ==> (#[trigger] all[k]).section_type != 0,
        decreases sections.len() - i,
    {
        assert(all[i as int] == sections@[i as int]@);
        if sections[i].section_type == 0 {
            assert(has_plain_section(all));
            return 0;
        }
        i += 1;
    }
    1
}

// ---------------------------------------------------------------------------
// Saving a season

/// The saved episodes of all sections, one section after the other.
pub open spec fn all_episodes(sections: Seq<SectionView>) -> Seq<EpisodeView>
    decreases sections.len(),
{
    if sections.len() == 0 {
        Seq::empty()
    } else {
        all_episodes(sections.drop_last()) + sections.last().episodes
    }
}

fn flatten_episodes(sections: &Vec<SeasonSectionBackup>) -> (r: Vec<SeasonEpisodeBackup>)
    ensures
        episode_views(r@) == all_episodes(section_views(sections@)),
{
    let ghost all = section_views(sections@);
    let mut out: Vec<SeasonEpisodeBackup> = Vec::new();
    let mut i: usize = 0;
    assert(all.take(0) =~= Seq::<SectionView>::empty());
    assert(episode_views(out@) =~= Seq::<EpisodeView>::empty());
    while i < sections.len()
        invariant
            i <= sections@.len(),
            all == section_views(sections@),
            episode_views(out@) == all_episodes(all.take(i as int)),
        decreases sections.len() - i,
    {
        assert(all.take(i + 1).drop_last() =~= all.take(i as int));
        assert(all.take(i + 1).last() == sections@[i as int]@);
        let mut more = copy_episodes(&sections[i].episodes);
        let ghost before = episode_views(out@);
        let ghost added = episode_views(more@);
        out.append(&mut more);
        assert(episode_views(out@) =~= before + added);
        i += 1;
    }
    assert(all.take(i as int) =~= all);
    out
}

/// The numbers of episodes that the sections are said to have.
pub open spec fn section_counts(sections: Seq<SectionView>) -> Seq<int> {
    Seq::new(sections.len(), |i: int| sections[i].ep_count as int)
}

fn sum_counts(sections: &Vec<SeasonSectionBackup>) -> (r: i64)
    requires
        sums_fit(section_counts(section_views(sections@))),
    ensures
        r == total(section_counts(section_views(sections@))),
{
    let ghost counts = section_counts(section_views(sections@));
    let mut sum: i64 = 0;
    let mut i: usize = 0;
    assert(counts.take(0) =~= Seq::<int>::empty());
    while i < sections.len()
        invariant
            i <= sections@.len(),
            counts == section_counts(section_views(sections@)),
            sums_fit(counts),
            sum == total(counts.take(i as int)),
        decreases sections.len() - i,
    {
        assert(counts.take(i + 1).drop_last() =~= counts.take(i as int));
        assert(counts.take(i + 1).last() == sections@[i as int].ep_count);
        assert(i64::MIN <= total(counts.take(i + 1)) <= i64::MAX);
        sum = sum + sections[i].ep_count;
        i += 1;
    }
    assert(counts.take(i as int) =~= counts);
    sum
}

/// Tells whether the numbers of episodes of the sections can be added up.
pub fn section_counts_fit(sections: &Vec<SeasonSectionBackup>) -> (r: bool)
    ensures
        r == sums_fit(section_counts(section_views(sections@))),
{
    let ghost counts = section_counts(section_views(sections@));
    let mut sum: i64 = 0;
    let mut i: usize = 0;
    assert(counts.take(0) =~= Seq::<int>::empty());
    while i < sections.len()
        invariant
            i <= sections@.len(),
            counts == section_counts(section_views(sections@)),
            sum == total(counts.take(i as int)),
            forall|k: int|
                0 <= k <= i ==> i64::MIN <= #[trigger] total(counts.take(k)) <= i64::MAX,
        decreases sections.len() - i,
    {
        assert(counts.take(i + 1).drop_last() =~= counts.take(i as int));
        assert(counts.take(i + 1).last() == sections@[i as int].ep_count);
        assert(total(counts.take(i + 1)) == sum + sections@[i as int].ep_count);
        match sum.checked_add(sections[i].ep_count) {
            Some(s) => {
                sum = s;
            },
            None => {
                return false;
            },
        }
        i += 1;
    }
    true
}

/// Puts a saved season together from the answer about it and its sections. Where the answer
/// lists no sections, its loose episodes make up one.
pub fn assemble_season_backup(
    raw: &Json,
    sections: Vec<SeasonSectionBackup>,
    backup_id: String,
    created_at: String,
) -> (r: SeasonBackup)
    requires
        sums_fit(section_counts(section_views(sections@))),
    ensures
        r.backup_id == backup_id,
        r.created_at == created_at,
        r.source_season_id == or_number(integer_at(season_of(raw@), "id"@), 0),
        r.title@ == text_or_empty(season_of(raw@), "title"@),
        r.description@ == text_or_empty(season_of(raw@), "desc"@),
        r.cover@ == text_or_empty(season_of(raw@), "cover"@),
        r.season_price == or_number(integer_at(season_of(raw@), "season_price"@), 0),
        r.no_section == integer_at(season_of(raw@), "no_section"@),
        r.section_id == (if section_entries(raw@).len() > 0 {
            or_number(integer_at(section_entries(raw@)[0], "id"@), 0)
        } else {
            0
        }),
        r.sections == sections,
        r.section_count == sections@.len() as i64,
        episode_views(r.episodes@) == all_episodes(section_views(sections@)),
        r.episode_count == total(section_counts(section_views(sections@))),
        r.captured_episode_count == all_episodes(section_views(sections@)).len() as i64,
        r.complete == (r.episode_count == 0 || r.captured_episode_count >= r.episode_count),
{
    let nothing = Json::Null;
    let season = match raw.get("season") {
        Some(v) => v,
        None => &nothing,
    };
    let episodes = flatten_episodes(&sections);
    assert(episode_views(episodes@).len() == episodes@.len());
    let episode_count: i64 = sum_counts(&sections);
    let captured: i64 = episodes.len() as i64;
    SeasonBackup {
        backup_id,
        source_season_id: season.get_i64_or("id", 0),
        title: season.get_text_or_empty("title"),
        description: season.get_text_or_empty("desc"),
        cover: season.get_text_or_empty("cover"),
        season_price: season.get_i64_or("season_price", 0),
        no_section: season.get_i64("no_section"),
        section_id: first_section_id(raw),
        section_count: sections.len() as i64,
        episode_count,
        captured_episode_count: captured,
        complete: episode_count == 0 || captured >= episode_count,
        sections,
        episodes,
        created_at,
    }
}

/// The loose episodes of an answer as a section, where it has any.
pub fn loose_section(raw: &Json) -> (r: Option<SeasonSectionBackup>)
    requires
        countable(raw@, "part_episodes"@),
    ensures
        match r {
            Some(section) => items_at(raw@, "part_episodes"@) matches Some(list) && list.len() > 0
                && section@ == only_section(
                if section_entries(raw@).len() > 0 {
                    or_number(integer_at(section_entries(raw@)[0], "id"@), 0)
                } else {
                    0
                },
                saved_episodes(list),
            ),
            None => items_at(raw@, "part_episodes"@) matches Some(list) ==> list.len() == 0,
        },
{
    match raw.get_array("part_episodes") {
        Some(list) => {
            assert(list_view(list@).len() == list@.len());
            if list.len() == 0 {
                return None;
            }
            let episodes = build_episodes(list);
            Some(make_only_section(first_section_id(raw), episodes))
        },
        None => None,
    }
}

// ---------------------------------------------------------------------------
// The list of backups

/// The backups of other seasons.
pub open spec fn other_seasons(backups: Seq<SeasonBackup>, season_id: i64) -> Seq<SeasonBackup>
    decreases backups.len(),
{
    if backups.len() == 0 {
        Seq::empty()
    } else {
        let rest = other_seasons(backups.drop_first(), season_id);
        if backups[0].source_season_id != season_id {
            seq![backups[0]] + rest
        } else {
            rest
        }
    }
}

/// Puts a backup in front of the list, in place of older ones of the same season.
pub fn add_backup(backups: Vec<SeasonBackup>, backup: SeasonBackup) -> (r: Vec<SeasonBackup>)
    ensures
        r@ == seq![backup] + other_seasons(backups@, backup.source_season_id),
{
    let ghost all = backups@;
    let ghost id = backup.source_season_id;
    let mut left = backups;
    let mut out: Vec<SeasonBackup> = Vec::new();
    assert(all.skip(all.len() as int) =~= Seq::<SeasonBackup>::empty());
    assert(all.take(all.len() as int) =~= all);
    while left.len() > 0
        invariant
            left@.len() <= all.len(),
            left@ == all.take(left@.len() as int),
            id == backup.source_season_id,
            out@ == other_seasons(all.skip(left@.len() as int), id),
        decreases left@.len(),
    {
        let ghost n = left@.len() as int;
        assert(all.skip(n - 1).drop_first() =~= all.skip(n));
        if let Some(last) = left.pop() {
            assert(last == all.skip(n - 1)[0]);
            assert(left@ =~= all.take(n - 1));
            let ghost before = out@;
            if last.source_season_id != backup.source_season_id {
                out.insert(0, last);
                assert(out@ =~= seq![last] + before);
            }
        }
    }
    assert(all.skip(0) =~= all);
    let ghost rest = out@;
    out.insert(0, backup);
    assert(out@ =~= seq![backup] + rest);
    out
}

/// The backups with another identifier.
pub open spec fn other_backups(backups: Seq<SeasonBackup>, backup_id: Seq<char>) -> Seq<
    SeasonBackup,
>
    decreases backups.len(),
{
    if backups.len() == 0 {
        Seq::empty()
    } else {
        let rest = other_backups(backups.drop_first(), backup_id);
        if backups[0].backup_id@ != backup_id {
            seq![backups[0]] + rest
        } else {
            rest
        }
    }
}

/// The position of the first backup with an identifier; the number of backups where there is
/// none.
pub open spec fn backup_position(backups: Seq<SeasonBackup>, backup_id: Seq<char>) -> int
    decreases backups.len(),
{
    if backups.len() == 0 || backups[0].backup_id@ == backup_id {
        0
    } else {
        1 + backup_position(backups.drop_first(), backup_id)
    }
}

fn find_position(backups: &Vec<SeasonBackup>, backup_id: &str) -> (r: usize)
    ensures
        r == backup_position(backups@, backup_id@),
        r <= backups@.len(),
{
    let ghost all = backups@;
    let mut i: usize = 0;
    assert(all.skip(0) =~= all);
    while i < backups.len()
        invariant
            i <= backups@.len(),
            all == backups@,
            backup_position(all, backup_id@) == i + backup_position(all.skip(i as int), backup_id@),
        decreases backups.len() - i,
    {
        assert(all.skip(i as int)[0] == all[i as int]);
        assert(all.skip(i as int).drop_first() =~= all.skip(i + 1));
        if text_eq(backups[i].backup_id.as_str(), backup_id) {
            return i;
        }
        i += 1;
    }
    assert(all.skip(i as int).len() == 0);
    i
}

/// Takes a backup out of the list, where it is in it.
pub fn remove_backup(backups: Vec<SeasonBackup>, backup_id: &str) -> (r: Result<
    Vec<SeasonBackup>,
    String,
>)
    ensures
        match r {
            Ok(list) => backup_position(backups@, backup_id@) < backups@.len() && list@
                == other_backups(backups@, backup_id@),
            Err(message) => backup_position(backups@, backup_id@) == backups@.len() && message@
                == "未找到备份"@,
        },
{
    let found = find_position(&backups, backup_id);
    if found >= backups.len() {
        return Err(copy_text("未找到备份"));
    }
    let ghost all = backups@;
    let mut left = backups;
    let mut out: Vec<SeasonBackup> = Vec::new();
    assert(all.skip(all.len() as int) =~= Seq::<SeasonBackup>::empty());
    assert(all.take(all.len() as int) =~= all);
    while left.len() > 0
        invariant
            left@.len() <= all.len(),
            left@ == all.take(left@.len() as int),
            out@ == other_backups(all.skip(left@.len() as int), backup_id@),
        decreases left@.len(),
    {
        let ghost n = left@.len() as int;
        assert(all.skip(n - 1).drop_first() =~= all.skip(n));
        if let Some(last) = left.pop() {
            assert(last == all.skip(n - 1)[0]);
            assert(left@ =~= all.take(n - 1));
            let ghost before = out@;
            if !text_eq(last.backup_id.as_str(), backup_id) {
                out.insert(0, last);
                assert(out@ =~= seq![last] + before);
            }
        }
    }
    assert(all.skip(0) =~= all);
    Ok(out)
}

/// Finds the backup that is to be restored: it has to be there, and to be complete.
pub fn find_backup(backups: &Vec<SeasonBackup>, backup_id: &str) -> (r: Result<usize, String>)
    ensures
        ({
            let at = backup_position(backups@, backup_id@);
            match r {
                Ok(i) => i == at && at < backups@.len() && backups@[at].complete,
                Err(message) => if at == backups@.len() {
                    message@ == "未找到备份"@
                } else {
                    at < backups@.len() && !backups@[at].complete && message@
                        == "该备份不完整，请重新备份后再恢复"@
                },
            }
        }),
{
    let i = find_position(backups, backup_id);
    if i >= backups.len() {
        Err(copy_text("未找到备份"))
    } else if !backups[i].complete {
        Err(copy_text("该备份不完整，请重新备份后再恢复"))
    } else {
        Ok(i)
    }
}

/// A season that was saved can be found again under its identifier, and the backups of the other
/// seasons are still there.
pub proof fn law_backup_found_again(
    backups: Seq<SeasonBackup>,
    backup: SeasonBackup,
    other: SeasonBackup,
)
    requires
        backups.contains(other),
        other.source_season_id != backup.source_season_id,
    ensures
        ({
            let list = seq![backup] + other_seasons(backups, backup.source_season_id);
            &&& backup_position(list, backup.backup_id@) == 0
            &&& list[0] == backup
            &&& list.contains(other)
        }),
{
    let rest = other_seasons(backups, backup.source_season_id);
    let list = seq![backup] + rest;
    lemma_other_season_stays(backups, backup.source_season_id, other);
    let i = choose|i: int| 0 <= i < rest.len() && rest[i] == other;
    assert(list[i + 1] == other);
}

proof fn lemma_other_season_stays(
    backups: Seq<SeasonBackup>,
    season_id: i64,
    other: SeasonBackup,
)
    requires
        backups.contains(other),
        other.source_season_id != season_id,
    ensures
        other_seasons(backups, season_id).contains(other),
    decreases backups.len(),
{
    let i = choose|i: int| 0 <= i < backups.len() && backups[i] == other;
    let rest = other_seasons(backups.drop_first(), season_id);
    let all = other_seasons(backups, season_id);
    if i == 0 {
        assert(all[0] == other);
    } else {
        assert(backups.drop_first()[i - 1] == other);
        lemma_other_season_stays(backups.drop_first(), season_id, other);
        let k = choose|k: int| 0 <= k < rest.len() && rest[k] == other;
        if backups[0].source_season_id != season_id {
            assert(all[k + 1] == other);
        }
    }
}

/// A season has one backup at most, once it was saved.
pub proof fn law_one_backup_per_season(backups: Seq<SeasonBackup>, backup: SeasonBackup, i: int)
    requires
        0 < i < (seq![backup] + other_seasons(backups, backup.source_season_id)).len(),
    ensures
        (seq![backup] + other_seasons(backups, backup.source_season_id))[i].source_season_id
            != backup.source_season_id,
{
    lemma_other_season(backups, backup.source_season_id, i - 1);
}

proof fn lemma_other_season(backups: Seq<SeasonBackup>, season_id: i64, i: int)
    requires
        0 <= i < other_seasons(backups, season_id).len(),
    ensures
        other_seasons(backups, season_id)[i].source_season_id != season_id,
    decreases backups.len(),
{
    if backups[0].source_season_id != season_id {
        if i > 0 {
            lemma_other_season(backups.drop_first(), season_id, i - 1);
        }
    } else {
        lemma_other_season(backups.drop_first(), season_id, i);
    }
}

/// A backup that was taken out is not found any more.
pub proof fn law_removed_backup_is_gone(backups: Seq<SeasonBackup>, backup_id: Seq<char>)
    ensures
        backup_position(other_backups(backups, backup_id), backup_id) == other_backups(
            backups,
            backup_id,
        ).len(),
    decreases backups.len(),
{
    if backups.len() > 0 {
        law_removed_backup_is_gone(backups.drop_first(), backup_id);
        let rest = other_backups(backups.drop_first(), backup_id);
        if backups[0].backup_id@ != backup_id {
            assert((seq![backups[0]] + rest).drop_first() =~= rest);
        }
    }
}

// ---------------------------------------------------------------------------
// What saving and restoring amount to

/// An episode is saved with what the site tells of it under its own keys; its place is the one that
/// is told, else the one where it stood.
pub proof fn law_episode_saved_as_told(list: Seq<JsonView>, i: int)
    requires
        0 <= i < list.len() < i64::MAX,
    ensures
        ({
            let e = saved_episodes(list)[i];
            let raw = list[i];
            &&& saved_episodes(list).len() == list.len()
            &&& integer_at(raw, "aid"@) matches Some(n) ==> e.aid == n
            &&& integer_at(raw, "cid"@) matches Some(n) ==> e.cid == n
            &&& e.episode_id == integer_at(raw, "id"@)
            &&& e.bvid == text_at(raw, "bvid"@)
            &&& text_at(raw, "archiveTitle"@) matches Some(t) ==> e.title == t
            &&& text_at(raw, "archiveTitle"@) is None ==> (text_at(raw, "title"@) matches Some(t)
                ==> e.title == t)
            &&& e.archive_title == text_at(raw, "archiveTitle"@)
            &&& e.video_title == text_at(raw, "videoTitle"@)
            &&& integer_at(raw, "charging_pay"@) matches Some(n) ==> e.charging_pay == n
            &&& integer_at(raw, "member_first"@) matches Some(n) ==> e.member_first == n
            &&& e.limited_free == (truth_at(raw, "limited_free"@) == Some(true))
            &&& integer_at(raw, "order"@) matches Some(n) ==> e.sort == n
            &&& integer_at(raw, "order"@) is None ==> e.sort == i + 1
        }),
{
}

/// A section is saved with all its episodes, in their order, and with what the site tells of it.
pub proof fn law_section_saved_as_told(raw: JsonView, section: JsonView, list: Seq<JsonView>)
    requires
        field(raw, "section"@) == Some(section),
        items_at(raw, "episodes"@) == Some(list),
        list.len() < i64::MAX,
    ensures
        ({
            let s = saved_section(raw);
            &&& s.episodes == saved_episodes(list)
            &&& integer_at(section, "id"@) matches Some(n) ==> s.section_id == n
            &&& integer_at(section, "type"@) matches Some(n) ==> s.section_type == n
            &&& text_at(section, "title"@) matches Some(t) ==> s.title == t
            &&& integer_at(section, "order"@) matches Some(n) ==> s.order == n
            &&& text_at(section, "cover"@) matches Some(t) ==> s.cover == t
            &&& integer_at(section, "state"@) matches Some(n) ==> s.state == n
            &&& integer_at(section, "partState"@) matches Some(n) ==> s.part_state == n
            &&& integer_at(section, "epCount"@) matches Some(n) ==> s.ep_count == n
            &&& integer_at(section, "epCount"@) is None ==> s.ep_count == list.len()
        }),
{
}

/// When an episode was published is told under several keys, of which the first that is there
/// counts.
pub proof fn law_first_publish_key_counts(raw: JsonView)
    ensures
        integer_at(raw, "publishedAt"@) is Some ==> publish_time(raw) == integer_at(
            raw,
            "publishedAt"@,
        ),
        integer_at(raw, "publishedAt"@) is None && integer_at(raw, "pubdate"@) is Some
            ==> publish_time(raw) == integer_at(raw, "pubdate"@),
        integer_at(raw, "publishedAt"@) is None && integer_at(raw, "pubdate"@) is None
            && integer_at(raw, "ctime"@) is Some ==> publish_time(raw) == integer_at(raw, "ctime"@),
        publish_time(raw) is None <==> integer_at(raw, "publishedAt"@) is None && integer_at(
            raw,
            "pubdate"@,
        ) is None && integer_at(raw, "ctime"@) is None && integer_at(raw, "pubDate"@) is None
            && integer_at(raw, "publishTime"@) is None,
{
    reveal_with_fuel(first_integer, 6);
    let k0 = publish_keys();
    let k1 = k0.drop_first();
    let k2 = k1.drop_first();
    let k3 = k2.drop_first();
    let k4 = k3.drop_first();
    let k5 = k4.drop_first();
    assert(k1[0] == "pubdate"@ && k2[0] == "ctime"@ && k3[0] == "pubDate"@ && k4[0]
        == "publishTime"@ && k5.len() == 0);
}

/// An entry of the list of archives is that of the archive it names, and tells when that was
/// published, where it does.
pub proof fn law_audit_entry_read(item: JsonView, archive: JsonView)
    requires
        field(item, "Archive"@) == Some(archive),
    ensures
        integer_at(archive, "aid"@) is Some ==> audit_aid(item) == integer_at(archive, "aid"@),
        integer_at(archive, "aid"@) is None ==> audit_aid(item) == integer_at(item, "aid"@),
        publish_time(archive) is Some ==> audit_time(item) == publish_time(archive),
        publish_time(archive) is None && integer_at(archive, "ptime"@) is Some ==> audit_time(item)
            == integer_at(archive, "ptime"@),
{
    reveal_with_fuel(first_integer, 2);
    assert(archive_keys()[0] == "ptime"@);
}

proof fn lemma_told(episodes: Seq<EpisodeView>, times: Map<i64, i64>, aid: i64)
    ensures
        told_times(episodes, times).dom().contains(aid) <==> times.dom().contains(aid) || exists|
            k: int,
        |
            0 <= k < episodes.len() && (#[trigger] episodes[k]).aid == aid
                && episodes[k].published_at is Some,
        told_times(episodes, times).dom().contains(aid) ==> (times.dom().contains(aid)
            && told_times(episodes, times)[aid] == times[aid]) || exists|k: int|
            0 <= k < episodes.len() && (#[trigger] episodes[k]).aid == aid
                && episodes[k].published_at == Some(told_times(episodes, times)[aid]),
    decreases episodes.len(),
{
    if episodes.len() > 0 {
        let rest = episodes.drop_last();
        lemma_told(rest, times, aid);
        let last = episodes.len() - 1;
        if exists|k: int|
            0 <= k < rest.len() && (#[trigger] rest[k]).aid == aid && rest[k].published_at is Some {
            let k = choose|k: int|
                0 <= k < rest.len() && (#[trigger] rest[k]).aid == aid && rest[k].published_at
                    is Some;
            assert(episodes[k] == rest[k]);
        }
        if exists|k: int|
            0 <= k < episodes.len() && (#[trigger] episodes[k]).aid == aid
                && episodes[k].published_at is Some {
            let k = choose|k: int|
                0 <= k < episodes.len() && (#[trigger] episodes[k]).aid == aid
                    && episodes[k].published_at is Some;
            if k < rest.len() {
                assert(rest[k] == episodes[k]);
            }
        }
        if episodes.last().aid == aid && episodes.last().published_at is Some {
            assert(episodes[last].published_at == Some(told_times(episodes, times)[aid]));
        } else if told_times(episodes, times).dom().contains(aid) {
            if exists|k: int|
                0 <= k < rest.len() && (#[trigger] rest[k]).aid == aid && rest[k].published_at
                    == Some(told_times(rest, times)[aid]) {
                let k = choose|k: int|
                    0 <= k < rest.len() && (#[trigger] rest[k]).aid == aid && rest[k].published_at
                        == Some(told_times(rest, times)[aid]);
                assert(episodes[k] == rest[k]);
            }
        }
    }
}

/// The place of an episode in a new order comes from a place in the old one, and none comes from
/// two.
pub open spec fn reorders(
    before: Seq<EpisodeView>,
    after: Seq<EpisodeView>,
    order: Seq<int>,
) -> bool {
    &&& after.len() == before.len()
    &&& order.len() == before.len()
    &&& order.no_duplicates()
    &&& forall|k: int|
        0 <= k < after.len() ==> {
            let e = before[#[trigger] order[k]];
            &&& 0 <= order[k] < before.len()
            &&& after[k].sort == k + 1
            &&& after[k] == (EpisodeView {
                sort: after[k].sort,
                published_at: after[k].published_at,
                ..e
            })
            &&& e.published_at is Some ==> after[k].published_at == e.published_at
        }
}

/// Episodes that are restored by when they were published come in that order, those of which it is
/// not known behind all others, and nothing of them but their places changes; where the order is
/// that of the backup, nothing changes at all.
pub proof fn law_restored_by_time(
    sections: Seq<SectionView>,
    mode: Seq<char>,
    i: int,
    j: int,
    k: int,
)
    requires
        0 <= i < sections.len(),
        0 <= j < k < sections[i].episodes.len() <= i64::MAX,
    ensures
        restored_order(sections, mode).len() == sections.len(),
        mode == "backup"@ ==> restored_order(sections, mode) == sections,
        restored_order(sections, mode)[i] == (SectionView {
            episodes: restored_order(sections, mode)[i].episodes,
            ..sections[i]
        }),
        mode != "backup"@ ==> ({
            let after = restored_order(sections, mode)[i].episodes;
            let a = after[j].published_at;
            let b = after[k].published_at;
            &&& exists|order: Seq<int>| #[trigger] reorders(sections[i].episodes, after, order)
            &&& a is None ==> b is None
            &&& a is Some && b is Some ==> (if mode == "publish_desc"@ {
                a->0 >= b->0
            } else {
                a->0 <= b->0
            })
        }),
{
    if mode != "backup"@ {
        let down = mode == "publish_desc"@;
        let episodes = sections[i].episodes;
        let times = all_times(sections);
        let keys = time_keys(episodes, times);
        let order = time_order(keys, keys.len(), down);
        law_time_order(keys, keys.len(), down);
        let after = restored_order(sections, mode)[i].episodes;
        assert(comes_before(keys, order[j], order[k], down));
        assert forall|n: int| 0 <= n < after.len() implies ({
            let e = episodes[#[trigger] order[n]];
            &&& 0 <= order[n] < episodes.len()
            &&& after[n].sort == n + 1
            &&& after[n] == (EpisodeView {
                sort: after[n].sort,
                published_at: after[n].published_at,
                ..e
            })
            &&& e.published_at is Some ==> after[n].published_at == e.published_at
        }) by {}
        assert(reorders(episodes, after, order));
    }
}

/// Episodes that were published together keep their order.
pub proof fn law_equal_times_keep_order(keys: Seq<Option<i64>>, descending: bool, j: int, k: int)
    requires
        0 <= j < k < keys.len(),
        keys[time_order(keys, keys.len(), descending)[j]] == keys[time_order(
            keys,
            keys.len(),
            descending,
        )[k]],
    ensures
        time_order(keys, keys.len(), descending)[j] < time_order(keys, keys.len(), descending)[k],
{
    let order = time_order(keys, keys.len(), descending);
    law_time_order(keys, keys.len(), descending);
    assert(comes_before(keys, order[j], order[k], descending));
}

/// A time that one episode of an archive tells is known for every episode of that archive in the
/// same section.
pub proof fn law_times_are_shared(episodes: Seq<EpisodeView>, a: int, b: int)
    requires
        0 <= a < episodes.len(),
        0 <= b < episodes.len(),
        episodes[a].aid == episodes[b].aid,
        episodes[a].published_at is Some,
    ensures
        ({
            let times = told_times(episodes, Map::empty());
            time_keys(episodes, times)[b] is Some && exists|c: int|
                0 <= c < episodes.len() && (#[trigger] episodes[c]).aid == episodes[b].aid
                    && episodes[c].published_at == time_keys(episodes, times)[b]
        }),
{
    let times = told_times(episodes, Map::empty());
    lemma_told(episodes, Map::empty(), episodes[b].aid);
    assert(times.dom().contains(episodes[b].aid));
    if episodes[b].published_at is Some {
        assert(episodes[b].published_at == time_keys(episodes, times)[b]);
    }
}

/// The sections that are restored are those of the backup, by their order, with all that was saved
/// of them; a backup without sections is restored as one, with all its episodes.
pub proof fn law_all_sections_restored(backup: SeasonBackup, i: int, j: int)
    ensures
        backup.sections@.len() > 0 ==> {
            &&& restore_sections(backup).len() == backup.sections@.len()
            &&& restore_sections(backup).to_multiset() == section_views(
                backup.sections@,
            ).to_multiset()
            &&& 0 <= i < j < backup.sections@.len() ==> restore_sections(backup)[i].order
                <= restore_sections(backup)[j].order
        },
        backup.sections@.len() == 0 && backup.episodes@.len() > 0 ==> restore_sections(backup).len()
            == 1 && restore_sections(backup)[0].episodes == episode_views(backup.episodes@)
            && restore_sections(backup)[0].section_type == 0,
        backup.sections@.len() == 0 && backup.episodes@.len() == 0 ==> restore_sections(
            backup,
        ).len() == 0,
{
    law_sections_ordered(section_views(backup.sections@));
}

/// A season is restored with sections or without as it was saved; where that is not known, without
/// only if it has one section at most and that is no plain one.
pub proof fn law_section_mode_kept(saved: Option<i64>, sections: Seq<SectionView>)
    ensures
        saved is Some ==> no_section_mode(saved, sections) == saved->0,
        saved is None && sections.len() > 1 ==> no_section_mode(saved, sections) == 0,
        saved is None && sections.len() == 1 ==> no_section_mode(saved, sections) == (
        if sections[0].section_type == 0 {
            0i64
        } else {
            1
        }),
        saved is None && sections.len() == 0 ==> no_section_mode(saved, sections) == 1,
{
    if sections.len() == 1 {
        if sections[0].section_type == 0 {
            assert(has_plain_section(sections));
        }
    }
}

/// The episodes of a backup are those of its sections, one section behind the other.
pub proof fn law_episodes_of_all_sections(sections: Seq<SectionView>, i: int, k: int)
    requires
        0 <= i < sections.len(),
        0 <= k < sections[i].episodes.len(),
    ensures
        all_episodes(sections).len() == episode_total(sections),
        all_episodes(sections)[episode_total(sections.take(i)) + k] == sections[i].episodes[k],
        0 <= episode_total(sections.take(i)),
        episode_total(sections.take(i)) + k < episode_total(sections),
    decreases sections.len(),
{
    let rest = sections.drop_last();
    lemma_all_len(rest);
    lemma_all_len(sections);
    if i < rest.len() {
        assert(rest[i] == sections[i]);
        law_episodes_of_all_sections(rest, i, k);
        assert(rest.take(i) =~= sections.take(i));
    } else {
        assert(sections.take(i) =~= rest);
    }
}

proof fn lemma_all_len(sections: Seq<SectionView>)
    ensures
        all_episodes(sections).len() == episode_total(sections),
    decreases sections.len(),
{
    if sections.len() > 0 {
        lemma_all_len(sections.drop_last());
    }
}

/// An order that is asked for is one of three: by time, up or down, or that of the backup, which
/// stands for anything else.
pub proof fn law_order_modes(value: Option<Seq<char>>)
    ensures
        sort_mode(Some("publish_asc"@)) == "publish_asc"@,
        sort_mode(Some("publish_desc"@)) == "publish_desc"@,
        value != Some("publish_asc"@) && value != Some("publish_desc"@) ==> sort_mode(value)
            == "backup"@,
{
}

/// A warning counts the episodes of which it is not known when they were published; without any
/// there is none.
pub proof fn law_unknown_times_warned_of(sections: Seq<SectionView>, mode: Seq<char>)
    ensures
        mode == "backup"@ ==> order_warnings(sections, mode).len() == 0,
        mode != "backup"@ ==> (order_warnings(sections, mode).len() == 0) == (missing_total(
            sections,
            all_times(sections),
        ) == 0),
        order_warnings(sections, mode).len() <= 1,
{
}

/// The sections of an answer stand under two keys of one name, each with its number of episodes.
pub proof fn law_sections_of_answer(raw: JsonView, outer: JsonView, list: Seq<JsonView>, i: int)
    requires
        field(raw, "sections"@) == Some(outer),
        items_at(outer, "sections"@) == Some(list),
        0 <= i < list.len(),
    ensures
        section_entries(raw) == list,
        integer_at(list[i], "epCount"@) is Some ==> entry_counts(section_entries(raw))[i]
            == integer_at(list[i], "epCount"@)->0,
        integer_at(list[i], "epCount"@) is None ==> entry_counts(section_entries(raw))[i] == 0,
{
}

/// Where an archive does not tell its publish time under the keys of an episode, it is looked for
/// under these, in this order.
pub proof fn law_further_publish_keys(archive: JsonView)
    ensures
        ({
            let none = integer_at(archive, "ptime"@) is None;
            let none2 = none && integer_at(archive, "submit_time"@) is None;
            let none3 = none2 && integer_at(archive, "submitTime"@) is None;
            let none4 = none3 && integer_at(archive, "created_at"@) is None;
            let none5 = none4 && integer_at(archive, "createdAt"@) is None;
            let found = first_integer(archive, archive_keys());
            &&& !none ==> found == integer_at(archive, "ptime"@)
            &&& none && !none2 ==> found == integer_at(archive, "submit_time"@)
            &&& none2 && !none3 ==> found == integer_at(archive, "submitTime"@)
            &&& none3 && !none4 ==> found == integer_at(archive, "created_at"@)
            &&& none4 && !none5 ==> found == integer_at(archive, "createdAt"@)
            &&& none5 ==> found == integer_at(archive, "mtime"@)
        }),
{
    reveal_with_fuel(first_integer, 7);
    let k0 = archive_keys();
    let k1 = k0.drop_first();
    let k2 = k1.drop_first();
    let k3 = k2.drop_first();
    let k4 = k3.drop_first();
    let k5 = k4.drop_first();
    let k6 = k5.drop_first();
    assert(k0[0] == "ptime"@ && k1[0] == "submit_time"@ && k2[0] == "submitTime"@ && k3[0]
        == "created_at"@ && k4[0] == "createdAt"@ && k5[0] == "mtime"@ && k6.len() == 0);
}

/// A sum is that of its parts.
pub proof fn law_sum_of_counts(a: Seq<int>, n: int)
    ensures
        total(Seq::empty()) == 0,
        total(a.push(n)) == total(a) + n,
{
    assert(a.push(n).drop_last() =~= a);
}

/// What an answer tells of a season stands under its key.
pub proof fn law_season_of_answer(raw: JsonView, season: JsonView)
    ensures
        field(raw, "season"@) == Some(season) ==> season_of(raw) == season,
        field(raw, "season"@) is None ==> season_of(raw) is Null,
{
}

} // verus!
