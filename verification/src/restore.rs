//! The restoration of a season, step by step: which request comes next, and what its answer
//! leads to.

use crate::json::{
    field, integer, integer_at, items_at, list_view, or_number, text_or_empty, Json, JsonView,
};
use crate::season::{
    apply_restore_episode_sort, backup_sections_for_restore, episode_total, no_section_mode,
    order_warnings, restore_no_section, restore_sections, restored_order, section_entries,
    section_views, EpisodeView, SeasonBackup, SeasonEpisodeBackup, SeasonRestoreResult,
    SeasonRestoreVerificationItem, SeasonSectionBackup, SectionView,
};
use crate::session::opt_text;
use crate::text::{
    concat2, contains, copy_text, extend_text, text_eq, text_has, texts, to_chars, to_text,
};
use vstd::prelude::*;

verus! {

/// So many episodes at most are added with one request.
pub const EPISODE_CHUNK: usize = 50;

/// So many times a request is sent where the server is busy.
pub const REQUEST_ATTEMPTS: u64 = 8;

// ---------------------------------------------------------------------------
// Errors

/// Tells whether an error says that requests came too often.
pub open spec fn rate_limited(err: Seq<char>) -> bool {
    contains(err, "20111"@) || contains(err, "过于频繁"@)
}

/// Tells whether an error says that an episode is in the season already.
pub open spec fn episode_exists(err: Seq<char>) -> bool {
    contains(err, "20080"@) || contains(err, "已存在在合集中"@)
}

/// Tells whether an error says that requests came too often.
pub fn is_rate_limited_error(err: &str) -> (r: bool)
    ensures
        r == rate_limited(err@),
{
    text_has(err, "20111") || text_has(err, "过于频繁")
}

/// Tells whether an error says that an episode is in the season already.
pub fn is_episode_exists_error(err: &str) -> (r: bool)
    ensures
        r == episode_exists(err@),
{
    text_has(err, "20080") || text_has(err, "已存在在合集中")
}

/// The wait in milliseconds before a request is sent again, after the given number of failed
/// attempts; none where the error stands. The attempts are counted from zero.
pub fn retry_wait_ms(attempt: u64, err: &str) -> (r: Option<u64>)
    ensures
        r == (if rate_limited(err@) && attempt < REQUEST_ATTEMPTS {
            Some((2500 + attempt * 1000) as u64)
        } else {
            None
        }),
{
    if attempt < REQUEST_ATTEMPTS && is_rate_limited_error(err) {
        Some(2500 + attempt * 1000)
    } else {
        None
    }
}

/// What comes of a request that failed: the wait in milliseconds, if there is one, and whether the
/// request is sent again then.
pub struct RetryStep {
    pub wait_ms: Option<u64>,
    pub again: bool,
}

/// What comes of a request that failed, after the given number of failed attempts before it.
pub open spec fn is_retry_step(step: RetryStep, attempt: u64, err: Seq<char>) -> bool {
    &&& step.wait_ms == (if rate_limited(err) && attempt < REQUEST_ATTEMPTS {
        Some((2500 + attempt * 1000) as u64)
    } else {
        None
    })
    &&& step.again == (rate_limited(err) && attempt + 1 < REQUEST_ATTEMPTS)
}

/// What comes of a request that failed, after the given number of failed attempts before it. The
/// last attempt is waited for too, but not repeated.
pub fn after_failed_request(attempt: u64, err: &str) -> (r: RetryStep)
    ensures
        r.wait_ms == (if rate_limited(err@) && attempt < REQUEST_ATTEMPTS {
            Some((2500 + attempt * 1000) as u64)
        } else {
            None
        }),
        r.again == (rate_limited(err@) && attempt + 1 < REQUEST_ATTEMPTS),
        is_retry_step(r, attempt, err@),
{
    let wait_ms = retry_wait_ms(attempt, err);
    RetryStep { again: wait_ms.is_some() && attempt < REQUEST_ATTEMPTS - 1, wait_ms }
}

// ---------------------------------------------------------------------------
// Answers

/// The identifier that an answer gives: the answer itself, else the one it holds.
pub open spec fn given_id(data: JsonView) -> Option<i64> {
    match integer(data) {
        Some(n) => Some(n),
        None => integer_at(data, "id"@),
    }
}

/// The identifier of a new season.
pub fn created_season_id(data: &Json) -> (r: Result<i64, String>)
    ensures
        match r {
            Ok(n) => given_id(data@) == Some(n),
            Err(message) => given_id(data@) is None && message@
                == "新增合集成功但未返回合集ID"@,
        },
{
    match answer_id(data) {
        Some(n) => Ok(n),
        None => Err(copy_text("新增合集成功但未返回合集ID")),
    }
}

/// The identifier of a new section.
pub fn created_section_id(data: &Json) -> (r: Result<i64, String>)
    ensures
        match r {
            Ok(n) => given_id(data@) == Some(n),
            Err(message) => given_id(data@) is None && message@
                == "新增子合集成功但未返回子合集ID"@,
        },
{
    match answer_id(data) {
        Some(n) => Ok(n),
        None => Err(copy_text("新增子合集成功但未返回子合集ID")),
    }
}

fn answer_id(data: &Json) -> (r: Option<i64>)
    ensures
        r == given_id(data@),
{
    match data.as_i64() {
        Some(n) => Some(n),
        None => data.get_i64("id"),
    }
}

/// The identifier of the first section of a new season.
pub fn default_section_id(detail: &Json) -> (r: Result<i64, String>)
    ensures
        ({
            let entries = section_entries(detail@);
            match r {
                Ok(n) => entries.len() > 0 && integer_at(entries[0], "id"@) == Some(n) && n > 0,
                Err(message) => if entries.len() == 0 {
                    message@ == "未找到新合集默认子合集"@
                } else {
                    &&& message@ == "未找到新合集默认子合集ID"@
                    &&& integer_at(entries[0], "id"@) matches Some(n) ==> n <= 0
                },
            }
        }),
{
    let sections = crate::season::season_sections(detail);
    assert(sections@.len() == section_entries(detail@).len());
    if sections.len() == 0 {
        return Err(copy_text("未找到新合集默认子合集"));
    }
    assert(crate::stream::refs_view(sections@)[0] == sections@[0]@);
    match sections[0].get_i64("id") {
        Some(n) => if n > 0 {
            Ok(n)
        } else {
            Err(copy_text("未找到新合集默认子合集ID"))
        },
        None => Err(copy_text("未找到新合集默认子合集ID")),
    }
}

/// Tells whether an episode can be added: its archive and its video are known.
pub open spec fn addable(e: EpisodeView) -> bool {
    e.aid > 0 && e.cid > 0
}

/// The positions of the episodes that can be added.
pub open spec fn addable_at(episodes: Seq<EpisodeView>) -> Seq<int>
    decreases episodes.len(),
{
    if episodes.len() == 0 {
        Seq::empty()
    } else if addable(episodes.last()) {
        addable_at(episodes.drop_last()).push(episodes.len() - 1)
    } else {
        addable_at(episodes.drop_last())
    }
}

/// The positions of the episodes of a section that can be added.
pub fn addable_positions(section: &SeasonSectionBackup) -> (r: Vec<usize>)
    ensures
        crate::season::int_views(r@) == addable_at(section@.episodes),
        r@.len() <= section.episodes@.len(),
        forall|k: int| 0 <= k < r@.len() ==> #[trigger] r@[k] < section.episodes@.len(),
{
    let ghost all = section@.episodes;
    let mut out: Vec<usize> = Vec::new();
    let mut i: usize = 0;
    assert(all.take(0) =~= Seq::<EpisodeView>::empty());
    assert(crate::season::int_views(out@) =~= Seq::<int>::empty());
    while i < section.episodes.len()
        invariant
            i <= section.episodes@.len(),
            all == section@.episodes,
            all.len() == section.episodes@.len(),
            out@.len() <= i,
            crate::season::int_views(out@) == addable_at(all.take(i as int)),
            forall|k: int| 0 <= k < out@.len() ==> #[trigger] out@[k] < section.episodes@.len(),
        decreases section.episodes.len() - i,
    {
        assert(all.take(i + 1).drop_last() =~= all.take(i as int));
        assert(all.take(i + 1).last() == section.episodes@[i as int]@);
        let ghost before = crate::season::int_views(out@);
        if section.episodes[i].aid > 0 && section.episodes[i].cid > 0 {
            out.push(i);
            assert(crate::season::int_views(out@) =~= before.push(i as int));
        }
        i += 1;
    }
    assert(all.take(i as int) =~= all);
    out
}

/// An entry of the order of episodes: the new identifier of an episode and its place.
#[derive(Clone, Copy, PartialEq, Eq, Structural)]
pub struct SortEntry {
    pub id: i64,
    pub sort: i64,
}

/// Tells whether an entry of a new section stands for an archive and a video.
pub open spec fn stands_for(entry: JsonView, aid: i64, cid: i64) -> bool {
    integer_at(entry, "aid"@) == Some(aid) && integer_at(entry, "cid"@) == Some(cid)
}

/// The identifier of the first entry that stands for an archive and a video.
pub open spec fn new_id(added: Seq<JsonView>, aid: i64, cid: i64) -> Option<i64>
    decreases added.len(),
{
    if added.len() == 0 {
        None
    } else if stands_for(added[0], aid, cid) {
        integer_at(added[0], "id"@)
    } else {
        new_id(added.drop_first(), aid, cid)
    }
}

/// The order of the episodes of a new section: each saved episode that it holds, at the place
/// where it was saved.
pub open spec fn episode_sorts(original: Seq<EpisodeView>, added: Seq<JsonView>) -> Seq<SortEntry>
    decreases original.len(),
{
    if original.len() == 0 {
        Seq::empty()
    } else {
        let before = episode_sorts(original.drop_last(), added);
        match new_id(added, original.last().aid, original.last().cid) {
            Some(id) => before.push(SortEntry { id, sort: original.len() as i64 }),
            None => before,
        }
    }
}

fn find_new_id(added: &Vec<Json>, aid: i64, cid: i64) -> (r: Option<i64>)
    ensures
        r == new_id(list_view(added@), aid, cid),
{
    let ghost all = list_view(added@);
    let mut i: usize = 0;
    assert(all.skip(0) =~= all);
    while i < added.len()
        invariant
            i <= added@.len(),
            all == list_view(added@),
            new_id(all, aid, cid) == new_id(all.skip(i as int), aid, cid),
        decreases added.len() - i,
    {
        assert(all.skip(i as int)[0] == added@[i as int]@);
        assert(all.skip(i as int).drop_first() =~= all.skip(i + 1));
        let same_aid: bool = match added[i].get_i64("aid") {
            Some(n) => n == aid,
            None => false,
        };
        let same_cid: bool = match added[i].get_i64("cid") {
            Some(n) => n == cid,
            None => false,
        };
        if same_aid && same_cid {
            return added[i].get_i64("id");
        }
        i += 1;
    }
    assert(all.skip(i as int).len() == 0);
    None
}

/// The order of the episodes of a new section.
pub fn build_episode_sorts(original: &Vec<SeasonEpisodeBackup>, added: &Vec<Json>) -> (r: Vec<
    SortEntry,
>)
    ensures
        r@ == episode_sorts(crate::season::episode_views(original@), list_view(added@)),
{
    let ghost all = crate::season::episode_views(original@);
    let ghost new = list_view(added@);
    let mut out: Vec<SortEntry> = Vec::new();
    let mut i: usize = 0;
    assert(all.take(0) =~= Seq::<EpisodeView>::empty());
    assert(out@ =~= Seq::<SortEntry>::empty());
    while i < original.len()
        invariant
            i <= original@.len(),
            all == crate::season::episode_views(original@),
            new == list_view(added@),
            out@ == episode_sorts(all.take(i as int), new),
        decreases original.len() - i,
    {
        assert(all.take(i + 1).drop_last() =~= all.take(i as int));
        assert(all.take(i + 1).last() == original@[i as int]@);
        if let Some(id) = find_new_id(added, original[i].aid, original[i].cid) {
            out.push(SortEntry { id, sort: (i + 1) as i64 });
        }
        i += 1;
    }
    assert(all.take(i as int) =~= all);
    out
}

/// The comparison of a saved section with the section at its place in the new season.
/// `detail` is what is known of that section, where it exists.
pub fn verification_item(
    expected: &SeasonSectionBackup,
    actual: &Json,
    detail: Option<&Json>,
) -> (r: SeasonRestoreVerificationItem)
    ensures
        r.title@ == expected.title@,
        r.expected_type == expected.section_type,
        r.actual_type == or_number(integer_at(actual@, "type"@), -1i64),
        r.expected_episodes == addable_at(expected@.episodes).len(),
        r.actual_episodes == (match detail {
            Some(d) => match items_at(d@, "episodes"@) {
                Some(list) => list.len() as int,
                None => 0,
            },
            None => 0,
        }),
        r.actual_show == (match detail {
            Some(d) => match field(d@, "section"@) {
                Some(section) => or_number(integer_at(section, "show"@), 0),
                None => 0,
            },
            None => 0,
        }),
        r.matched == (text_or_empty(actual@, "title"@) == expected.title@ && r.actual_type
            == expected.section_type && r.actual_episodes == r.expected_episodes && r.actual_show
            == 1),
{
    let actual_title = actual.get_text_or_empty("title");
    let actual_type: i64 = actual.get_i64_or("type", -1);
    let mut actual_show: i64 = 0;
    let mut actual_episodes: usize = 0;
    if let Some(d) = detail {
        if let Some(section) = d.get("section") {
            actual_show = section.get_i64_or("show", 0);
        }
        if let Some(list) = d.get_array("episodes") {
            assert(list_view(list@).len() == list@.len());
            actual_episodes = list.len();
        }
    }
    let positions = addable_positions(expected);
    assert(crate::season::int_views(positions@).len() == positions@.len());
    let expected_episodes: usize = positions.len();
    let matched: bool = text_eq(actual_title.as_str(), expected.title.as_str()) && actual_type
        == expected.section_type && actual_episodes == expected_episodes && actual_show == 1;
    SeasonRestoreVerificationItem {
        title: copy_text(expected.title.as_str()),
        expected_type: expected.section_type,
        actual_type,
        expected_episodes,
        actual_episodes,
        actual_show,
        matched,
    }
}

// ---------------------------------------------------------------------------
// The steps

/// Where the restoration stands: the request that comes next.
#[derive(Clone, Copy, PartialEq, Eq, Structural)]
pub enum RestorePhase {
    /// Create the season.
    CreateSeason,
    /// Find the section that a new season comes with.
    FindDefault,
    /// Switch the season to sections or to none.
    SwitchMode,
    /// Delete the section that it came with.
    DeleteDefault,
    /// Create the section at a place.
    CreateSection(usize),
    /// Save the order of the sections before episodes are added.
    SaveOrderBefore,
    /// Add the episodes of a section from a position on, as many as one request takes.
    AddEpisodes(usize, usize),
    /// Add one episode of a section, of those before an end.
    AddEpisode(usize, usize, usize),
    /// Save the title of a section and the order of its episodes.
    SortSection(usize),
    /// Save the order of the sections.
    SaveOrderAfter,
    /// Compare the new season with what was saved.
    Verify,
    /// All is done.
    Done,
    /// The restoration was given up.
    Failed,
}

/// The answer to a request.
pub enum RestoreReply {
    /// The request was carried out.
    Accepted,
    /// The request was carried out, and this is the identifier of what it made or found.
    Made(i64),
    /// The request was refused.
    Refused(String),
}

/// The state of a restoration.
pub struct RestoreJob {
    pub phase: RestorePhase,
    pub sections: Vec<SeasonSectionBackup>,
    pub section_ids: Vec<i64>,
    pub new_season_id: i64,
    pub default_section: Option<i64>,
    pub expected_no_section: i64,
    pub added_episode_count: usize,
    pub warnings: Vec<String>,
    pub failure: Option<String>,
}

/// The model of a restoration.
pub ghost struct JobView {
    pub phase: RestorePhase,
    pub sections: Seq<SectionView>,
    pub section_ids: Seq<i64>,
    pub new_season_id: i64,
    pub default_section: Option<i64>,
    pub expected_no_section: i64,
    pub added_episode_count: int,
    pub warnings: Seq<Seq<char>>,
    pub failure: Option<Seq<char>>,
}

/// The model of an answer.
pub ghost enum ReplyView {
    Accepted,
    Made(i64),
    Refused(Seq<char>),
}

impl RestoreReply {
    /// The model of an answer.
    pub open spec fn view(&self) -> ReplyView {
        match self {
            RestoreReply::Accepted => ReplyView::Accepted,
            RestoreReply::Made(n) => ReplyView::Made(*n),
            RestoreReply::Refused(message) => ReplyView::Refused(message@),
        }
    }
}

/// The number of episodes of a section that can be added.
pub open spec fn addable_len(section: SectionView) -> int {
    addable_at(section.episodes).len() as int
}

/// The end of the chunk of episodes that begins at a position.
pub open spec fn chunk_end(section: SectionView, at: int) -> int {
    if at + EPISODE_CHUNK < addable_len(section) {
        at + EPISODE_CHUNK
    } else {
        addable_len(section)
    }
}

impl JobView {
    /// The step that follows once a section is created: the next one, else the order.
    pub open spec fn creating(self, k: int) -> RestorePhase {
        if k < self.sections.len() {
            RestorePhase::CreateSection(k as usize)
        } else {
            RestorePhase::SaveOrderBefore
        }
    }

    /// The step with which the episodes of a section go on from a position.
    pub open spec fn adding(self, k: int, at: int) -> RestorePhase {
        if at < addable_len(self.sections[k]) {
            RestorePhase::AddEpisodes(k as usize, at as usize)
        } else {
            RestorePhase::SortSection(k as usize)
        }
    }

    /// The step with which a section is filled, or what follows the last one.
    pub open spec fn filling(self, k: int) -> RestorePhase {
        if k < self.sections.len() {
            self.adding(k, 0)
        } else {
            RestorePhase::SaveOrderAfter
        }
    }

    /// The restoration is given up.
    pub open spec fn given_up(self, message: Seq<char>) -> JobView {
        JobView { phase: RestorePhase::Failed, failure: Some(message), ..self }
    }

    /// The restoration with another warning.
    pub open spec fn warned(self, message: Seq<char>) -> JobView {
        JobView { warnings: self.warnings.push(message), ..self }
    }

    /// The restoration at another step.
    pub open spec fn at(self, phase: RestorePhase) -> JobView {
        JobView { phase, ..self }
    }

    /// The title of the episode at a position of a section, of those that can be added.
    pub open spec fn episode_title(self, k: int, at: int) -> Seq<char> {
        self.sections[k].episodes[addable_at(self.sections[k].episodes)[at]].title
    }

    /// The positions of the episodes that the step adds.
    pub open spec fn to_add(self) -> Seq<int> {
        match self.phase {
            RestorePhase::AddEpisodes(k, at) => addable_at(
                self.sections[k as int].episodes,
            ).subrange(at as int, chunk_end(self.sections[k as int], at as int)),
            RestorePhase::AddEpisode(k, at, _) => seq![
                addable_at(self.sections[k as int].episodes)[at as int],
            ],
            _ => Seq::empty(),
        }
    }

    /// What an answer leads to.
    pub open spec fn after(self, reply: ReplyView) -> JobView {
        match self.phase {
            RestorePhase::CreateSeason => match reply {
                ReplyView::Made(id) => JobView { new_season_id: id, ..self }.at(
                    RestorePhase::FindDefault,
                ),
                ReplyView::Refused(message) => self.given_up(message),
                ReplyView::Accepted => self,
            },
            RestorePhase::FindDefault => match reply {
                ReplyView::Made(id) => JobView { default_section: Some(id), ..self }.at(
                    RestorePhase::SwitchMode,
                ),
                _ => self.at(RestorePhase::SwitchMode),
            },
            RestorePhase::SwitchMode => match reply {
                ReplyView::Refused(message) => self.given_up(message),
                _ => self.at(
                    if self.default_section is Some {
                        RestorePhase::DeleteDefault
                    } else {
                        self.creating(0)
                    },
                ),
            },
            RestorePhase::DeleteDefault => match reply {
                ReplyView::Refused(message) => self.given_up(message),
                _ => self.at(self.creating(0)),
            },
            RestorePhase::CreateSection(k) => match reply {
                ReplyView::Made(id) => JobView {
                    section_ids: self.section_ids.push(id),
                    ..self
                }.at(self.creating(k + 1)),
                ReplyView::Refused(message) => self.given_up(message),
                ReplyView::Accepted => self,
            },
            RestorePhase::SaveOrderBefore => match reply {
                ReplyView::Refused(message) => self.warned(
                    "合集分组模式保存失败: "@ + message,
                ).at(self.filling(0)),
                _ => self.at(self.filling(0)),
            },
            RestorePhase::AddEpisodes(k, at) => {
                let end = chunk_end(self.sections[k as int], at as int);
                match reply {
                    ReplyView::Refused(message) => if episode_exists(message) {
                        self.at(RestorePhase::AddEpisode(k, at, end as usize))
                    } else {
                        self.given_up(message)
                    },
                    _ => JobView {
                        added_episode_count: self.added_episode_count + end - at,
                        ..self
                    }.at(self.adding(k as int, end)),
                }
            },
            RestorePhase::AddEpisode(k, at, end) => {
                let next = if at + 1 < end {
                    RestorePhase::AddEpisode(k, (at + 1) as usize, end)
                } else {
                    self.adding(k as int, end as int)
                };
                match reply {
                    ReplyView::Refused(message) => if episode_exists(message) {
                        self.warned(
                            "子合集「"@ + self.sections[k as int].title + "」视频「"@
                                + self.episode_title(k as int, at as int)
                                + "」已存在在合集中，已跳过"@,
                        ).at(next)
                    } else {
                        self.given_up(message)
                    },
                    _ => JobView {
                        added_episode_count: self.added_episode_count + 1,
                        ..self
                    }.at(next),
                }
            },
            RestorePhase::SortSection(k) => match reply {
                ReplyView::Refused(message) => self.warned(
                    "子合集「"@ + self.sections[k as int].title + "」标题或排序恢复失败: "@
                        + message,
                ).at(self.filling(k + 1)),
                _ => self.at(self.filling(k + 1)),
            },
            RestorePhase::SaveOrderAfter => match reply {
                ReplyView::Refused(message) => self.warned(
                    "合集信息或子合集排序保存失败: "@ + message,
                ).at(RestorePhase::Verify),
                _ => self.at(RestorePhase::Verify),
            },
            RestorePhase::Verify => match reply {
                ReplyView::Refused(message) => self.warned(
                    "恢复后自动验收查询失败: "@ + message,
                ).at(RestorePhase::Done),
                _ => self.at(RestorePhase::Done),
            },
            RestorePhase::Done => self,
            RestorePhase::Failed => self,
        }
    }

    /// The positions of the step are those of sections and episodes, and a step that adds
    /// episodes adds at least one.
    pub open spec fn wf(self) -> bool {
        &&& self.sections.len() <= usize::MAX
        &&& forall|k: int|
            0 <= k < self.sections.len() ==> (#[trigger] self.sections[k]).episodes.len()
                <= usize::MAX
        &&& match self.phase {
            RestorePhase::CreateSection(k) => k < self.sections.len() && self.section_ids.len()
                == k,
            RestorePhase::AddEpisodes(k, at) => k < self.sections.len() && at < addable_len(
                self.sections[k as int],
            ),
            RestorePhase::AddEpisode(k, at, end) => k < self.sections.len() && at < end && end
                <= addable_len(self.sections[k as int]),
            RestorePhase::SortSection(k) => k < self.sections.len(),
            _ => true,
        }
        &&& match self.phase {
            RestorePhase::CreateSeason | RestorePhase::FindDefault | RestorePhase::SwitchMode
            | RestorePhase::DeleteDefault => self.section_ids.len() == 0
                && self.added_episode_count == 0,
            RestorePhase::CreateSection(_) => self.added_episode_count == 0,
            RestorePhase::Failed => true,
            _ => self.section_ids.len() == self.sections.len(),
        }
        &&& 0 <= self.added_episode_count <= self.reached()
        &&& self.addable_before(self.sections.len() as int) <= usize::MAX
    }

    /// The number of episodes in the sections before a place that can be added.
    pub open spec fn addable_before(self, k: int) -> int
        decreases k,
    {
        if k <= 0 {
            0
        } else {
            self.addable_before(k - 1) + addable_len(self.sections[k - 1])
        }
    }

    /// The number of episodes that were tried so far.
    pub open spec fn reached(self) -> int {
        match self.phase {
            RestorePhase::AddEpisodes(k, at) => self.addable_before(k as int) + at,
            RestorePhase::AddEpisode(k, at, _) => self.addable_before(k as int) + at,
            RestorePhase::SortSection(k) => self.addable_before(k as int + 1),
            RestorePhase::CreateSeason | RestorePhase::FindDefault | RestorePhase::SwitchMode
            | RestorePhase::DeleteDefault | RestorePhase::CreateSection(_)
            | RestorePhase::SaveOrderBefore => 0,
            _ => self.addable_before(self.sections.len() as int),
        }
    }

    /// The number of requests that can still come, in rounds of sections.
    pub open spec fn left(self) -> int {
        let n = self.sections.len() as int;
        match self.phase {
            RestorePhase::CreateSeason => 2 * n + 9,
            RestorePhase::FindDefault => 2 * n + 8,
            RestorePhase::SwitchMode => 2 * n + 7,
            RestorePhase::DeleteDefault => 2 * n + 6,
            RestorePhase::CreateSection(k) => 2 * n + 5 - k,
            RestorePhase::SaveOrderBefore => n + 4,
            RestorePhase::AddEpisodes(k, _) => n + 3 - k,
            RestorePhase::AddEpisode(k, _, _) => n + 3 - k,
            RestorePhase::SortSection(k) => n + 3 - k,
            RestorePhase::SaveOrderAfter => 2,
            RestorePhase::Verify => 1,
            _ => 0,
        }
    }

    /// The number of requests that can still come for the section at hand.
    pub open spec fn left_in_section(self) -> int {
        match self.phase {
            RestorePhase::AddEpisodes(k, at) => 2 * (addable_len(self.sections[k as int]) - at) + 2,
            RestorePhase::AddEpisode(k, at, _) => 2 * (addable_len(self.sections[k as int]) - at)
                + 1,
            _ => 0,
        }
    }
}

/// Tells whether an answer fits a step: a step that makes or finds something is answered with
/// its identifier.
pub open spec fn reply_fits(phase: RestorePhase, reply: ReplyView) -> bool {
    match phase {
        RestorePhase::CreateSeason => !(reply is Accepted),
        RestorePhase::CreateSection(_) => !(reply is Accepted),
        _ => true,
    }
}

/// Tells whether a restoration is over.
pub open spec fn over(phase: RestorePhase) -> bool {
    phase is Done || phase is Failed
}

/// The restoration ends: every answer brings it closer to its end, whatever it says.
pub proof fn law_restore_ends(job: JobView, reply: ReplyView)
    requires
        job.wf(),
        !over(job.phase),
        reply_fits(job.phase, reply),
    ensures
        0 <= job.after(reply).left() <= job.left(),
        job.after(reply).left() == job.left() ==> 0 <= job.after(reply).left_in_section()
            < job.left_in_section(),
{
    match job.phase {
        RestorePhase::AddEpisodes(k, at) => {
            lemma_addable_bound(job.sections[k as int].episodes);
        },
        RestorePhase::AddEpisode(k, at, end) => {
            lemma_addable_bound(job.sections[k as int].episodes);
        },
        _ => {},
    }
}

/// The positions of the episodes that can be added are positions of episodes.
pub proof fn lemma_addable_bound(episodes: Seq<EpisodeView>)
    ensures
        addable_at(episodes).len() <= episodes.len(),
        forall|k: int|
            0 <= k < addable_at(episodes).len() ==> 0 <= #[trigger] addable_at(episodes)[k]
                < episodes.len(),
    decreases episodes.len(),
{
    if episodes.len() > 0 {
        lemma_addable_bound(episodes.drop_last());
    }
}

proof fn lemma_addable_before_same(a: JobView, b: JobView, k: int)
    requires
        a.sections == b.sections,
    ensures
        a.addable_before(k) == b.addable_before(k),
    decreases k,
{
    if k > 0 {
        lemma_addable_before_same(a, b, k - 1);
    }
}

proof fn lemma_addable_before_grows(a: JobView, k: int)
    requires
        0 <= k <= a.sections.len(),
    ensures
        0 <= a.addable_before(k),
    decreases k,
{
    if k > 0 {
        lemma_addable_before_grows(a, k - 1);
    }
}

/// A restoration stays well formed: in particular every section gets its identifier before
/// episodes are added, and no more episodes are counted than were tried.
pub proof fn law_restore_sound(job: JobView, reply: ReplyView)
    requires
        job.wf(),
        reply_fits(job.phase, reply),
    ensures
        job.after(reply).wf(),
        job.after(reply).sections == job.sections,
{
    let next = job.after(reply);
    let n = job.sections.len() as int;
    assert forall|k: int| next.addable_before(k) == #[trigger] job.addable_before(k) by {
        lemma_addable_before_same(job, next, k);
    }
    lemma_addable_before_grows(job, n);
    lemma_addable_before_same(job, next, n);
    match job.phase {
        RestorePhase::AddEpisodes(k, at) => {
            lemma_addable_bound(job.sections[k as int].episodes);
            lemma_addable_before_same(job, next, k as int);
            lemma_addable_before_same(job, next, k as int + 1);
            lemma_addable_before_grows(job, k as int);
            lemma_total_grows(job, k as int + 1);
        },
        RestorePhase::AddEpisode(k, at, end) => {
            lemma_addable_bound(job.sections[k as int].episodes);
            lemma_addable_before_same(job, next, k as int);
            lemma_addable_before_same(job, next, k as int + 1);
            lemma_addable_before_grows(job, k as int);
            lemma_total_grows(job, k as int + 1);
        },
        RestorePhase::SortSection(k) => {
            lemma_addable_before_same(job, next, k as int + 1);
            lemma_addable_before_same(job, next, k as int + 2);
            lemma_total_grows(job, k as int + 1);
            if k + 1 < n {
                lemma_addable_bound(job.sections[k as int + 1].episodes);
                lemma_addable_before_grows(job, k as int + 2);
            }
        },
        RestorePhase::SaveOrderBefore => {
            if n > 0 {
                lemma_addable_bound(job.sections[0].episodes);
                lemma_addable_before_same(job, next, 1);
                lemma_addable_before_same(job, next, 0);
                lemma_addable_before_grows(job, 1);
            }
        },
        _ => {},
    }
}

proof fn lemma_total_grows(job: JobView, k: int)
    requires
        0 <= k <= job.sections.len(),
    ensures
        job.addable_before(k) <= job.addable_before(job.sections.len() as int),
    decreases job.sections.len() - k,
{
    if k < job.sections.len() {
        lemma_total_grows(job, k + 1);
    }
}

impl RestoreJob {
    /// The model of a restoration.
    pub open spec fn view(&self) -> JobView {
        JobView {
            phase: self.phase,
            sections: section_views(self.sections@),
            section_ids: self.section_ids@,
            new_season_id: self.new_season_id,
            default_section: self.default_section,
            expected_no_section: self.expected_no_section,
            added_episode_count: self.added_episode_count as int,
            warnings: texts(self.warnings@),
            failure: opt_text(self.failure),
        }
    }

    /// A restoration that begins, with the episodes in the order of the mode.
    pub fn new(backup: &SeasonBackup, episode_sort_mode: &str) -> (r: RestoreJob)
        requires
            episode_total(restore_sections(*backup)) <= usize::MAX,
        ensures
            r@ == (JobView {
                phase: RestorePhase::CreateSeason,
                sections: restored_order(restore_sections(*backup), episode_sort_mode@),
                section_ids: Seq::<i64>::empty(),
                new_season_id: 0,
                default_section: None,
                expected_no_section: no_section_mode(
                    backup.no_section,
                    restored_order(restore_sections(*backup), episode_sort_mode@),
                ),
                added_episode_count: 0,
                warnings: order_warnings(restore_sections(*backup), episode_sort_mode@),
                failure: None,
            }),
            r@.wf(),
    {
        let mut warnings: Vec<String> = Vec::new();
        assert(texts(warnings@) =~= Seq::<Seq<char>>::empty());
        let mut sections = backup_sections_for_restore(backup);
        apply_restore_episode_sort(&mut sections, episode_sort_mode, &mut warnings);
        assert(Seq::<Seq<char>>::empty() + order_warnings(
            restore_sections(*backup),
            episode_sort_mode@,
        ) =~= order_warnings(restore_sections(*backup), episode_sort_mode@));
        let expected_no_section: i64 = restore_no_section(backup, &sections);
        let r = RestoreJob {
            phase: RestorePhase::CreateSeason,
            sections,
            section_ids: Vec::new(),
            new_season_id: 0,
            default_section: None,
            expected_no_section,
            added_episode_count: 0,
            warnings,
            failure: None,
        };
        let n: usize = r.sections.len();
        proof {
            assert(r@.section_ids =~= Seq::<i64>::empty());
            assert(r@.sections.len() == n);
            assert forall|k: int| 0 <= k < r@.sections.len() implies (#[trigger]
            r@.sections[k]).episodes.len() <= usize::MAX by {
                lemma_each_section_bounded(
                    restore_sections(*backup),
                    restored_order(restore_sections(*backup), episode_sort_mode@),
                    k,
                );
            }
            lemma_addable_total(
                r@,
                restore_sections(*backup),
                r@.sections.len() as int,
            );
            assert(restore_sections(*backup).take(r@.sections.len() as int)
                =~= restore_sections(*backup));
        }
        r
    }

    fn adding(&self, k: usize, at: usize) -> (r: RestorePhase)
        requires
            k < self.sections@.len(),
        ensures
            r == self@.adding(k as int, at as int),
    {
        let positions = addable_positions(&self.sections[k]);
        assert(crate::season::int_views(positions@).len() == positions@.len());
        assert(self@.sections[k as int] == self.sections@[k as int]@);
        if at < positions.len() {
            RestorePhase::AddEpisodes(k, at)
        } else {
            RestorePhase::SortSection(k)
        }
    }

    fn filling(&self, k: usize) -> (r: RestorePhase)
        ensures
            r == self@.filling(k as int),
    {
        assert(self@.sections.len() == self.sections@.len());
        if k < self.sections.len() {
            self.adding(k, 0)
        } else {
            RestorePhase::SaveOrderAfter
        }
    }

    fn creating(&self, k: usize) -> (r: RestorePhase)
        ensures
            r == self@.creating(k as int),
    {
        assert(self@.sections.len() == self.sections@.len());
        if k < self.sections.len() {
            RestorePhase::CreateSection(k)
        } else {
            RestorePhase::SaveOrderBefore
        }
    }

    fn warn(&mut self, message: String)
        ensures
            final(self)@ == old(self)@.warned(message@),
            final(self).sections == old(self).sections,
    {
        let ghost before = texts(self.warnings@);
        self.warnings.push(message);
        assert(texts(self.warnings@) =~= before.push(message@));
    }

    fn give_up(&mut self, message: String)
        ensures
            final(self)@ == old(self)@.given_up(message@),
    {
        self.phase = RestorePhase::Failed;
        self.failure = Some(message);
    }

    /// The positions of the episodes that the step adds.
    pub fn episodes_to_add(&self) -> (r: Vec<usize>)
        requires
            self@.wf(),
        ensures
            crate::season::int_views(r@) == self@.to_add(),
    {
        let mut out: Vec<usize> = Vec::new();
        assert(crate::season::int_views(out@) =~= Seq::<int>::empty());
        let (k, from, to): (usize, usize, usize) = match self.phase {
            RestorePhase::AddEpisodes(k, at) => {
                let positions = addable_positions(&self.sections[k]);
                assert(crate::season::int_views(positions@).len() == positions@.len());
                assert(self@.sections[k as int] == self.sections@[k as int]@);
                let end: usize = if positions.len() - at > EPISODE_CHUNK {
                    at + EPISODE_CHUNK
                } else {
                    positions.len()
                };
                (k, at, end)
            },
            RestorePhase::AddEpisode(k, at, end) => (k, at, at + 1),
            _ => {
                return out;
            },
        };
        let positions = addable_positions(&self.sections[k]);
        let ghost all = crate::season::int_views(positions@);
        assert(self@.sections[k as int] == self.sections@[k as int]@);
        let mut i: usize = from;
        assert(crate::season::int_views(out@) =~= all.subrange(from as int, from as int));
        while i < to
            invariant
                from <= i <= to <= positions@.len(),
                all == crate::season::int_views(positions@),
                crate::season::int_views(out@) == all.subrange(from as int, i as int),
            decreases to - i,
        {
            let ghost before = crate::season::int_views(out@);
            out.push(positions[i]);
            assert(crate::season::int_views(out@) =~= before.push(positions@[i as int] as int));
            assert(all.subrange(from as int, i + 1) =~= all.subrange(from as int, i as int).push(
                all[i as int],
            ));
            i += 1;
        }
        proof {
            if self.phase is AddEpisode {
                assert(all.subrange(from as int, to as int) =~= seq![all[from as int]]);
            }
        }
        out
    }

    /// Takes the answer to the request of the step.
    pub fn on_reply(&mut self, reply: RestoreReply)
        requires
            old(self)@.wf(),
            reply_fits(old(self).phase, reply@),
        ensures
            final(self)@ == old(self)@.after(reply@),
            final(self)@.wf(),
    {
        let ghost before = self@;
        proof {
            law_restore_sound(before, reply@);
            lemma_reached_bound(before);
            lemma_reached_bound(before.after(reply@));
            lemma_addable_before_same(before, before.after(reply@), before.sections.len() as int);
        }
        assert(self@.sections.len() == self.sections@.len());
        let sections_len: usize = self.sections.len();
        match self.phase {
            RestorePhase::CreateSeason => match reply {
                RestoreReply::Made(id) => {
                    self.new_season_id = id;
                    self.phase = RestorePhase::FindDefault;
                },
                RestoreReply::Refused(message) => {
                    self.give_up(message);
                },
                RestoreReply::Accepted => {},
            },
            RestorePhase::FindDefault => {
                if let RestoreReply::Made(id) = reply {
                    self.default_section = Some(id);
                }
                self.phase = RestorePhase::SwitchMode;
            },
            RestorePhase::SwitchMode => match reply {
                RestoreReply::Refused(message) => {
                    self.give_up(message);
                },
                _ => {
                    self.phase =
                    if self.default_section.is_some() {
                        RestorePhase::DeleteDefault
                    } else {
                        self.creating(0)
                    };
                },
            },
            RestorePhase::DeleteDefault => match reply {
                RestoreReply::Refused(message) => {
                    self.give_up(message);
                },
                _ => {
                    self.phase = self.creating(0);
                },
            },
            RestorePhase::CreateSection(k) => match reply {
                RestoreReply::Made(id) => {
                    self.section_ids.push(id);
                    self.phase = self.creating(k + 1);
                },
                RestoreReply::Refused(message) => {
                    self.give_up(message);
                },
                RestoreReply::Accepted => {},
            },
            RestorePhase::SaveOrderBefore => {
                if let RestoreReply::Refused(message) = reply {
                    self.warn(concat2("合集分组模式保存失败: ", message.as_str()));
                }
                self.phase = self.filling(0);
            },
            RestorePhase::AddEpisodes(k, at) => {
                let positions = addable_positions(&self.sections[k]);
                assert(crate::season::int_views(positions@).len() == positions@.len());
                assert(self@.sections[k as int] == self.sections@[k as int]@);
                let end: usize = if positions.len() - at > EPISODE_CHUNK {
                    at + EPISODE_CHUNK
                } else {
                    positions.len()
                };
                match reply {
                    RestoreReply::Refused(message) => {
                        if is_episode_exists_error(message.as_str()) {
                            self.phase = RestorePhase::AddEpisode(k, at, end);
                        } else {
                            self.give_up(message);
                        }
                    },
                    _ => {
                        self.added_episode_count = self.added_episode_count + (end - at);
                        self.phase = self.adding(k, end);
                    },
                }
            },
            RestorePhase::AddEpisode(k, at, end) => {
                let next: RestorePhase = if at + 1 < end {
                    RestorePhase::AddEpisode(k, at + 1, end)
                } else {
                    self.adding(k, end)
                };
                match reply {
                    RestoreReply::Refused(message) => {
                        if is_episode_exists_error(message.as_str()) {
                            let positions = addable_positions(&self.sections[k]);
                            assert(crate::season::int_views(positions@)[at as int]
                                == positions@[at as int]);
                            assert(self@.sections[k as int] == self.sections@[k as int]@);
                            let mut text = to_chars("子合集「");
                            extend_text(&mut text, self.sections[k].title.as_str());
                            extend_text(&mut text, "」视频「");
                            extend_text(
                                &mut text,
                                self.sections[k].episodes[positions[at]].title.as_str(),
                            );
                            extend_text(&mut text, "」已存在在合集中，已跳过");
                            self.warn(to_text(text.as_slice()));
                            self.phase = next;
                        } else {
                            self.give_up(message);
                        }
                    },
                    _ => {
                        self.added_episode_count = self.added_episode_count + 1;
                        self.phase = next;
                    },
                }
            },
            RestorePhase::SortSection(k) => {
                if let RestoreReply::Refused(message) = reply {
                    assert(self@.sections[k as int] == self.sections@[k as int]@);
                    let mut text = to_chars("子合集「");
                    extend_text(&mut text, self.sections[k].title.as_str());
                    extend_text(&mut text, "」标题或排序恢复失败: ");
                    extend_text(&mut text, message.as_str());
                    self.warn(to_text(text.as_slice()));
                }
                self.phase = self.filling(k + 1);
            },
            RestorePhase::SaveOrderAfter => {
                if let RestoreReply::Refused(message) = reply {
                    self.warn(concat2("合集信息或子合集排序保存失败: ", message.as_str()));
                }
                self.phase = RestorePhase::Verify;
            },
            RestorePhase::Verify => {
                if let RestoreReply::Refused(message) = reply {
                    self.warn(concat2("恢复后自动验收查询失败: ", message.as_str()));
                }
                self.phase = RestorePhase::Done;
            },
            RestorePhase::Done => {},
            RestorePhase::Failed => {},
        }
    }
}

proof fn lemma_reached_bound(job: JobView)
    requires
        job.wf(),
    ensures
        job.reached() <= job.addable_before(job.sections.len() as int),
{
    lemma_addable_before_grows(job, job.sections.len() as int);
    match job.phase {
        RestorePhase::AddEpisodes(k, at) => {
            lemma_total_grows(job, k as int + 1);
        },
        RestorePhase::AddEpisode(k, at, end) => {
            lemma_total_grows(job, k as int + 1);
        },
        RestorePhase::SortSection(k) => {
            lemma_total_grows(job, k as int + 1);
        },
        _ => {},
    }
}

proof fn lemma_each_section_bounded(before: Seq<SectionView>, after: Seq<SectionView>, k: int)
    requires
        episode_total(before) <= usize::MAX,
        after.len() == before.len(),
        0 <= k < before.len(),
        forall|i: int|
            0 <= i < before.len() ==> (#[trigger] after[i]).episodes.len()
                == before[i].episodes.len(),
    ensures
        after[k].episodes.len() <= usize::MAX,
{
    lemma_section_len(before, k);
}

/// No more episodes are added than there are.
proof fn lemma_addable_total(job: JobView, before: Seq<SectionView>, k: int)
    requires
        0 <= k <= before.len(),
        job.sections.len() == before.len(),
        forall|i: int|
            0 <= i < before.len() ==> (#[trigger] job.sections[i]).episodes.len()
                == before[i].episodes.len(),
    ensures
        job.addable_before(k) <= episode_total(before.take(k)),
    decreases k,
{
    if k > 0 {
        lemma_addable_total(job, before, k - 1);
        lemma_addable_bound(job.sections[k - 1].episodes);
        assert(before.take(k).drop_last() =~= before.take(k - 1));
        assert(before.take(k).last() == before[k - 1]);
    }
}

proof fn lemma_section_len(sections: Seq<SectionView>, k: int)
    requires
        0 <= k < sections.len(),
    ensures
        0 <= sections[k].episodes.len() <= episode_total(sections),
    decreases sections.len(),
{
    if k < sections.len() - 1 {
        lemma_section_len(sections.drop_last(), k);
    } else {
        lemma_total_nonnegative(sections.drop_last());
    }
}

proof fn lemma_total_nonnegative(sections: Seq<SectionView>)
    ensures
        0 <= episode_total(sections),
    decreases sections.len(),
{
    if sections.len() > 0 {
        lemma_total_nonnegative(sections.drop_last());
    }
}

// ---------------------------------------------------------------------------
// The outcome

/// The number of episodes that the comparison found.
pub open spec fn found_total(items: Seq<SeasonRestoreVerificationItem>) -> int
    decreases items.len(),
{
    if items.len() == 0 {
        0
    } else {
        found_total(items.drop_last()) + items.last().actual_episodes
    }
}

/// Tells whether every comparison matched, and there was one.
pub open spec fn all_matched(items: Seq<SeasonRestoreVerificationItem>) -> bool {
    items.len() > 0 && forall|i: int| 0 <= i < items.len() ==> (#[trigger] items[i]).matched
}

proof fn lemma_found_prefix(items: Seq<SeasonRestoreVerificationItem>, k: int)
    requires
        0 <= k <= items.len(),
    ensures
        0 <= found_total(items.take(k)) <= found_total(items),
    decreases items.len(),
{
    if k == items.len() {
        assert(items.take(k) =~= items);
        if items.len() > 0 {
            lemma_found_prefix(items.drop_last(), items.len() - 1);
            assert(items.drop_last().take(items.len() - 1) =~= items.drop_last());
        }
    } else {
        lemma_found_prefix(items.drop_last(), k);
        assert(items.drop_last().take(k) =~= items.take(k));
    }
}

/// The outcome of a restoration that is done, with what the comparison found.
pub fn restore_result(
    job: RestoreJob,
    restored_no_section: Option<i64>,
    verification: Vec<SeasonRestoreVerificationItem>,
    episode_sort_mode: &str,
) -> (r: SeasonRestoreResult)
    requires
        found_total(verification@) <= usize::MAX,
    ensures
        r.new_season_id == job.new_season_id,
        r.added_episode_count == job.added_episode_count,
        r.created_section_count == job.section_ids@.len(),
        r.verified == all_matched(verification@),
        r.restored_section_count == verification@.len(),
        r.restored_episode_count == found_total(verification@),
        r.restored_no_section == restored_no_section,
        r.expected_no_section == job.expected_no_section,
        r.episode_sort_mode@ == episode_sort_mode@,
        r.verification == verification,
        r.warnings == job.warnings,
{
    let mut found: usize = 0;
    let mut matched: bool = verification.len() > 0;
    let mut i: usize = 0;
    assert(verification@.take(0) =~= Seq::<SeasonRestoreVerificationItem>::empty());
    while i < verification.len()
        invariant
            i <= verification@.len(),
            found_total(verification@) <= usize::MAX,
            found == found_total(verification@.take(i as int)),
            matched == (verification@.len() > 0 && forall|k: int|
                0 <= k < i ==> (#[trigger] verification@[k]).matched),
        decreases verification.len() - i,
    {
        assert(verification@.take(i + 1).drop_last() =~= verification@.take(i as int));
        proof {
            lemma_found_prefix(verification@, i + 1);
        }
        found = found + verification[i].actual_episodes;
        if !verification[i].matched {
            matched = false;
        }
        i += 1;
    }
    assert(verification@.take(i as int) =~= verification@);
    SeasonRestoreResult {
        new_season_id: job.new_season_id,
        added_episode_count: job.added_episode_count,
        created_section_count: job.section_ids.len(),
        verified: matched,
        restored_section_count: verification.len(),
        restored_episode_count: found,
        restored_no_section,
        expected_no_section: job.expected_no_section,
        episode_sort_mode: copy_text(episode_sort_mode),
        verification,
        warnings: job.warnings,
    }
}

// ---------------------------------------------------------------------------
// Whole restorations

/// Tells whether a request was carried out.
pub open spec fn carried_out(reply: ReplyView) -> bool {
    !(reply is Refused)
}

/// No episode is passed over and none is offered twice: a step that settles episodes, by adding
/// them or by finding that they are there, goes on right behind them, and any other step goes on
/// where the last one stopped.
pub proof fn law_no_episode_passed_over(job: JobView, reply: ReplyView)
    requires
        job.wf(),
        reply_fits(job.phase, reply),
        !(job.after(reply).phase is Failed),
    ensures
        job.after(reply).reached() == job.reached() + (match job.phase {
            RestorePhase::AddEpisodes(_, _) => if carried_out(reply) {
                job.to_add().len() as int
            } else {
                0
            },
            RestorePhase::AddEpisode(_, _, _) => 1,
            _ => 0,
        }),
{
    let next = job.after(reply);
    let n = job.sections.len() as int;
    assert forall|k: int| next.addable_before(k) == #[trigger] job.addable_before(k) by {
        lemma_addable_before_same(job, next, k);
    }
    match job.phase {
        RestorePhase::AddEpisodes(k, at) => {
            lemma_addable_bound(job.sections[k as int].episodes);
            lemma_addable_before_same(job, next, k as int);
            lemma_addable_before_same(job, next, k as int + 1);
        },
        RestorePhase::AddEpisode(k, at, end) => {
            lemma_addable_bound(job.sections[k as int].episodes);
            lemma_addable_before_same(job, next, k as int);
            lemma_addable_before_same(job, next, k as int + 1);
        },
        RestorePhase::SortSection(k) => {
            lemma_addable_before_same(job, next, k as int + 1);
            lemma_addable_before_same(job, next, k as int + 2);
            if k + 1 < n {
                lemma_addable_bound(job.sections[k as int + 1].episodes);
            }
        },
        RestorePhase::SaveOrderBefore => {
            lemma_addable_before_same(job, next, 0);
            lemma_addable_before_same(job, next, 1);
            if n > 0 {
                lemma_addable_bound(job.sections[0].episodes);
                assert(job.addable_before(1) == job.addable_before(0) + addable_len(
                    job.sections[0],
                ));
            }
        },
        _ => {
            lemma_addable_before_same(job, next, n);
        },
    }
}

/// The episodes that were added are counted, and no others: a request that is carried out counts
/// all that it offered, any other reply counts nothing.
pub proof fn law_added_episodes_counted(job: JobView, reply: ReplyView)
    requires
        job.wf(),
        reply_fits(job.phase, reply),
    ensures
        job.after(reply).added_episode_count == job.added_episode_count + (if carried_out(reply) {
            job.to_add().len() as int
        } else {
            0
        }),
{
    match job.phase {
        RestorePhase::AddEpisodes(k, at) => {
            lemma_addable_bound(job.sections[k as int].episodes);
        },
        _ => {},
    }
}

/// Where every request is carried out, the restoration has added every episode that can be added
/// once it is done: the count keeps step with the episodes that were offered, and in the end these
/// are all.
pub proof fn law_smooth_restore_adds_all(job: JobView, reply: ReplyView)
    requires
        job.wf(),
        reply_fits(job.phase, reply),
        carried_out(reply),
        job.added_episode_count == job.reached(),
    ensures
        !(job.after(reply).phase is Failed) || job.phase is Failed,
        job.after(reply).added_episode_count == job.after(reply).reached(),
        job.after(reply).phase is Done ==> job.after(reply).added_episode_count
            == job.addable_before(job.sections.len() as int),
{
    let next = job.after(reply);
    law_added_episodes_counted(job, reply);
    lemma_addable_before_same(job, next, job.sections.len() as int);
    if !(next.phase is Failed) {
        law_no_episode_passed_over(job, reply);
    }
}

/// The section that a step is about.
pub open spec fn section_of(phase: RestorePhase) -> Option<int> {
    match phase {
        RestorePhase::CreateSection(k) => Some(k as int),
        RestorePhase::AddEpisodes(k, _) => Some(k as int),
        RestorePhase::AddEpisode(k, _, _) => Some(k as int),
        RestorePhase::SortSection(k) => Some(k as int),
        _ => None,
    }
}

/// The sections are taken one by one, first to be made and then to be filled: each new one gets its
/// own identifier, the episodes of one are done with before the next, every one of them is put in
/// order, and the order of all is saved before and behind.
pub proof fn law_sections_one_by_one(job: JobView, reply: ReplyView)
    requires
        job.wf(),
        reply_fits(job.phase, reply),
        !(job.after(reply).phase is Failed),
    ensures
        ({
            let next = job.after(reply);
            let n = job.sections.len();
            match job.phase {
                RestorePhase::CreateSeason => next.phase is FindDefault && (
                reply matches ReplyView::Made(id) && next.new_season_id == id),
                RestorePhase::FindDefault => next.phase is SwitchMode && next.default_section == (
                match reply {
                    ReplyView::Made(id) => Some(id),
                    _ => job.default_section,
                }),
                RestorePhase::SwitchMode => if job.default_section is Some {
                    next.phase is DeleteDefault
                } else if n > 0 {
                    next.phase == RestorePhase::CreateSection(0)
                } else {
                    next.phase is SaveOrderBefore
                },
                RestorePhase::DeleteDefault => if n > 0 {
                    next.phase == RestorePhase::CreateSection(0)
                } else {
                    next.phase is SaveOrderBefore
                },
                RestorePhase::CreateSection(k) => {
                    &&& reply matches ReplyView::Made(id) && next.section_ids
                        == job.section_ids.push(id)
                    &&& if k + 1 < n {
                        next.phase == RestorePhase::CreateSection((k + 1) as usize)
                    } else {
                        next.phase is SaveOrderBefore
                    }
                },
                RestorePhase::SaveOrderBefore => if n > 0 {
                    section_of(next.phase) == Some(0int) && !(next.phase is CreateSection)
                } else {
                    next.phase is SaveOrderAfter
                },
                RestorePhase::AddEpisodes(k, _) => section_of(next.phase) == Some(k as int)
                    && !(next.phase is CreateSection),
                RestorePhase::AddEpisode(k, _, _) => section_of(next.phase) == Some(k as int)
                    && !(next.phase is CreateSection),
                RestorePhase::SortSection(k) => if k + 1 < n {
                    section_of(next.phase) == Some(k + 1) && !(next.phase is CreateSection)
                } else {
                    next.phase is SaveOrderAfter
                },
                RestorePhase::SaveOrderAfter => next.phase is Verify,
                RestorePhase::Verify => next.phase is Done,
                _ => next == job,
            }
        }),
        job.after(reply).sections == job.sections,
        !(job.phase is CreateSection) ==> job.after(reply).section_ids == job.section_ids,
        !(job.phase is CreateSeason) ==> job.after(reply).new_season_id == job.new_season_id,
        job.after(reply).expected_no_section == job.expected_no_section,
{
}

/// A request whose failure leaves the season incomplete ends the restoration with its error; any
/// other failure adds one warning that ends with the error, or none where only the section that a
/// season comes with was not found. What is there already is passed over, and no warning is lost.
pub proof fn law_refusals_are_told(job: JobView, message: Seq<char>)
    requires
        job.wf(),
        !over(job.phase),
    ensures
        ({
            let next = job.after(ReplyView::Refused(message));
            let there = episode_exists(message);
            let fatal = match job.phase {
                RestorePhase::CreateSeason => true,
                RestorePhase::SwitchMode => true,
                RestorePhase::DeleteDefault => true,
                RestorePhase::CreateSection(_) => true,
                RestorePhase::AddEpisodes(_, _) => !there,
                RestorePhase::AddEpisode(_, _, _) => !there,
                _ => false,
            };
            &&& fatal == (next.phase is Failed)
            &&& next.failure == (if fatal {
                Some(message)
            } else {
                job.failure
            })
            &&& fatal || job.phase is FindDefault || job.phase is AddEpisodes ==> next.warnings
                == job.warnings
            &&& !fatal && !(job.phase is FindDefault) && !(job.phase is AddEpisodes) ==> {
                &&& next.warnings.len() == job.warnings.len() + 1
                &&& next.warnings.drop_last() == job.warnings
                &&& job.phase is AddEpisode || crate::text::ends_with(next.warnings.last(), message)
            }
        }),
{
    let next = job.after(ReplyView::Refused(message));
    if next.warnings.len() == job.warnings.len() + 1 {
        assert(next.warnings.drop_last() =~= job.warnings);
        let w = next.warnings.last();
        if !(job.phase is AddEpisode) {
            assert(w.subrange(w.len() - message.len(), w.len() as int) =~= message);
        }
    }
}

/// The wait before a request is sent again grows with every attempt and is bounded, and only
/// requests that came too often are sent again: at most eight times.
pub proof fn law_request_attempts_bounded(attempt: u64, err: Seq<char>)
    ensures
        forall|step: RetryStep| #[trigger]
            is_retry_step(step, attempt, err) ==> {
                &&& step.again ==> attempt < 7 && (contains(err, "20111"@) || contains(
                    err,
                    "过于频繁"@,
                ))
                &&& step.wait_ms matches Some(wait) ==> 2500 <= wait <= 9500 && wait == 2500
                    + attempt * 1000
                &&& (contains(err, "20111"@) || contains(err, "过于频繁"@)) && attempt < 7
                    ==> step.again && step.wait_ms is Some
            },
{
}

/// A restored season matches where each of its sections does, and what was found is counted over
/// all of them.
pub proof fn law_every_section_compared(
    items: Seq<SeasonRestoreVerificationItem>,
    item: SeasonRestoreVerificationItem,
)
    ensures
        found_total(items.push(item)) == found_total(items) + item.actual_episodes,
        found_total(Seq::empty()) == 0,
        !item.matched ==> !all_matched(items.push(item)),
        items.len() > 0 ==> all_matched(items.push(item)) == (all_matched(items) && item.matched),
        !all_matched(Seq::empty()),
{
    let all = items.push(item);
    assert(all.drop_last() =~= items);
    assert(all[items.len() as int] == item);
    if all_matched(all) {
        assert forall|i: int| 0 <= i < items.len() implies (#[trigger] items[i]).matched by {
            assert(all[i] == items[i]);
        }
    }
}

/// A new season or section is known by the number that is answered, alone or under its key.
pub proof fn law_new_number_answered(data: JsonView)
    ensures
        integer(data) is Some ==> given_id(data) == integer(data),
        integer(data) is None ==> given_id(data) == integer_at(data, "id"@),
{
}

/// An entry stands for a video by the numbers of its archive and of itself, both.
pub proof fn law_entry_stands_for_video(entry: JsonView, aid: i64, cid: i64)
    ensures
        integer_at(entry, "aid"@) == Some(aid) && integer_at(entry, "cid"@) == Some(cid)
            ==> stands_for(entry, aid, cid),
        integer_at(entry, "aid"@) != Some(aid) ==> !stands_for(entry, aid, cid),
        integer_at(entry, "cid"@) != Some(cid) ==> !stands_for(entry, aid, cid),
{
}

/// The number of a restored episode is that of the first new entry that stands for it.
pub proof fn law_first_entry_gives_number(added: Seq<JsonView>, aid: i64, cid: i64, i: int)
    requires
        0 <= i <= added.len(),
        forall|k: int| 0 <= k < i ==> !stands_for(#[trigger] added[k], aid, cid),
        i < added.len() ==> stands_for(added[i], aid, cid),
    ensures
        i < added.len() ==> new_id(added, aid, cid) == integer_at(added[i], "id"@),
        i == added.len() ==> new_id(added, aid, cid) is None,
    decreases added.len(),
{
    if i > 0 {
        assert(!stands_for(added[0], aid, cid));
        let rest = added.drop_first();
        assert forall|k: int| 0 <= k < i - 1 implies !stands_for(#[trigger] rest[k], aid, cid) by {
            assert(rest[k] == added[k + 1]);
        }
        if i < added.len() {
            assert(rest[i - 1] == added[i]);
        }
        law_first_entry_gives_number(rest, aid, cid, i - 1);
    }
}

/// Every episode that has an archive and a video can be added, those without cannot, and they are
/// taken in their order.
pub proof fn law_episodes_to_add(episodes: Seq<EpisodeView>, i: int)
    requires
        0 <= i < episodes.len(),
    ensures
        episodes[i].aid > 0 && episodes[i].cid > 0 <==> addable_at(episodes).contains(i),
        forall|a: int, b: int|
            0 <= a < b < addable_at(episodes).len() ==> #[trigger] addable_at(episodes)[a]
                < #[trigger] addable_at(episodes)[b],
    decreases episodes.len(),
{
    let rest = episodes.drop_last();
    let n = episodes.len() - 1;
    let before = addable_at(rest);
    let after = addable_at(episodes);
    lemma_addable_bound(rest);
    assert(episodes[n] == episodes.last());
    if rest.len() > 0 {
        law_episodes_to_add(
            rest,
            if i < n {
                i
            } else {
                0
            },
        );
    } else {
        assert(before.len() == 0);
    }
    if i < n {
        assert(rest[i] == episodes[i]);
        if before.contains(i) {
            let k = choose|k: int| 0 <= k < before.len() && before[k] == i;
            assert(after[k] == i);
        }
        if after.contains(i) {
            let k = choose|k: int| 0 <= k < after.len() && after[k] == i;
            assert(before[k] == i);
        }
    } else {
        if addable(episodes[n]) {
            assert(after[before.len() as int] == n);
        } else if after.contains(n) {
            let k = choose|k: int| 0 <= k < before.len() && before[k] == n;
            assert(before[k] < n);
        }
    }
}

} // verus!
