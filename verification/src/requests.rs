//! What the requests say with which a season is restored.

use crate::json::{
    field, fields_view, integer, integer_at, items_at, lemma_array_view, lemma_field_at,
    lemma_object_view, list_view, text_at, truth_at, Json, JsonView,
};
use crate::outside::pair_views;
use crate::restore::{
    addable, addable_at, build_episode_sorts, episode_sorts, lemma_addable_bound, new_id, JobView,
    RestoreJob, RestorePhase, SortEntry, EPISODE_CHUNK,
};
use crate::season::{
    episode_views, int_views, EpisodeView, SeasonBackup, SeasonEpisodeBackup, SeasonSectionBackup,
    SectionView,
};
use crate::text::{copy_text, decimal, i64_text};
use vstd::prelude::*;

verus! {

// ---------------------------------------------------------------------------
// Bodies

/// The request for a new season.
pub open spec fn season_body(backup: SeasonBackup) -> JsonView {
    JsonView::Object(
        seq![
            ("cover"@, JsonView::Str(backup.cover@)),
            ("title"@, JsonView::Str(backup.title@)),
            ("desc"@, JsonView::Str(backup.description@)),
            ("season_price"@, JsonView::Number(backup.season_price as int)),
            ("captcha_token"@, JsonView::Str(""@)),
        ],
    )
}

/// The request for a new section of a season.
pub open spec fn section_body(section: SectionView, season_id: i64) -> JsonView {
    JsonView::Object(
        seq![
            ("type"@, JsonView::Number(section.section_type as int)),
            ("seasonId"@, JsonView::Number(season_id as int)),
            ("title"@, JsonView::Str(section.title)),
            ("captcha_token"@, JsonView::Str(""@)),
        ],
    )
}

/// The place of a section or of an episode in an order.
pub open spec fn sort_body(id: i64, sort: int) -> JsonView {
    JsonView::Object(seq![("id"@, JsonView::Number(id as int)), ("sort"@, JsonView::Number(sort))])
}

/// The request that saves what is told of a season, and its sections in order, counted from one.
pub open spec fn order_body(backup: SeasonBackup, season_id: i64, ids: Seq<i64>) -> JsonView {
    JsonView::Object(
        seq![
            (
                "season"@,
                JsonView::Object(
                    seq![
                        ("id"@, JsonView::Number(season_id as int)),
                        ("title"@, JsonView::Str(backup.title@)),
                        ("desc"@, JsonView::Str(backup.description@)),
                        ("cover"@, JsonView::Str(backup.cover@)),
                        ("isEnd"@, JsonView::Number(0)),
                        ("season_price"@, JsonView::Number(backup.season_price as int)),
                        ("captcha_token"@, JsonView::Str(""@)),
                    ],
                ),
            ),
            (
                "sorts"@,
                JsonView::Array(Seq::new(ids.len(), |i: int| sort_body(ids[i], i + 1))),
            ),
        ],
    )
}

/// What is told of an episode that is added.
pub open spec fn episode_body(e: EpisodeView) -> JsonView {
    JsonView::Object(
        seq![
            ("title"@, JsonView::Str(e.title)),
            ("aid"@, JsonView::Number(e.aid as int)),
            ("cid"@, JsonView::Number(e.cid as int)),
            ("charging_pay"@, JsonView::Number(e.charging_pay as int)),
            ("member_first"@, JsonView::Number(e.member_first as int)),
            ("limited_free"@, JsonView::Bool(e.limited_free)),
        ],
    )
}

/// The request that adds episodes to a section.
pub open spec fn episodes_body(
    section_id: i64,
    episodes: Seq<EpisodeView>,
    positions: Seq<int>,
) -> JsonView {
    JsonView::Object(
        seq![
            ("sectionId"@, JsonView::Number(section_id as int)),
            (
                "episodes"@,
                JsonView::Array(
                    Seq::new(positions.len(), |i: int| episode_body(episodes[positions[i]])),
                ),
            ),
        ],
    )
}

/// The request that saves the title of a section and the order of its episodes.
pub open spec fn sorted_body(
    section: SectionView,
    section_id: i64,
    season_id: i64,
    sorts: Seq<SortEntry>,
) -> JsonView {
    JsonView::Object(
        seq![
            (
                "section"@,
                JsonView::Object(
                    seq![
                        ("id"@, JsonView::Number(section_id as int)),
                        ("type"@, JsonView::Number(section.section_type as int)),
                        ("seasonId"@, JsonView::Number(season_id as int)),
                        ("title"@, JsonView::Str(section.title)),
                    ],
                ),
            ),
            (
                "sorts"@,
                JsonView::Array(
                    Seq::new(sorts.len(), |i: int| sort_body(sorts[i].id, sorts[i].sort as int)),
                ),
            ),
            ("captcha_token"@, JsonView::Str(""@)),
        ],
    )
}

/// What the request of a step says, where it sends a JSON value. `added` holds the episodes that
/// the section at hand has been given.
pub open spec fn request_body(
    job: JobView,
    backup: SeasonBackup,
    added: Seq<JsonView>,
) -> Option<JsonView> {
    match job.phase {
        RestorePhase::CreateSeason => Some(season_body(backup)),
        RestorePhase::CreateSection(k) => Some(
            section_body(job.sections[k as int], job.new_season_id),
        ),
        RestorePhase::SaveOrderBefore => Some(
            order_body(backup, job.new_season_id, job.section_ids),
        ),
        RestorePhase::SaveOrderAfter => Some(
            order_body(backup, job.new_season_id, job.section_ids),
        ),
        RestorePhase::AddEpisodes(k, _) => Some(
            episodes_body(
                job.section_ids[k as int],
                job.sections[k as int].episodes,
                job.to_add(),
            ),
        ),
        RestorePhase::AddEpisode(k, _, _) => Some(
            episodes_body(
                job.section_ids[k as int],
                job.sections[k as int].episodes,
                job.to_add(),
            ),
        ),
        RestorePhase::SortSection(k) => Some(
            sorted_body(
                job.sections[k as int],
                job.section_ids[k as int],
                job.new_season_id,
                episode_sorts(job.sections[k as int].episodes, added),
            ),
        ),
        _ => None,
    }
}

fn str_value(s: &String) -> (r: Json)
    ensures
        r@ == JsonView::Str(s@),
{
    Json::Str(copy_text(s.as_str()))
}

fn empty_value() -> (r: Json)
    ensures
        r@ == JsonView::Str(""@),
{
    Json::Str(copy_text(""))
}

fn make_season_body(backup: &SeasonBackup) -> (r: Json)
    ensures
        r@ == season_body(*backup),
{
    let fields: Vec<(String, Json)> = vec![
        (copy_text("cover"), str_value(&backup.cover)),
        (copy_text("title"), str_value(&backup.title)),
        (copy_text("desc"), str_value(&backup.description)),
        (copy_text("season_price"), Json::Int(backup.season_price)),
        (copy_text("captcha_token"), empty_value()),
    ];
    proof {
        lemma_object_view(fields);
        assert(fields_view(fields@) =~= season_body(*backup)->Object_0);
    }
    Json::Object(fields)
}

fn make_section_body(section: &SeasonSectionBackup, season_id: i64) -> (r: Json)
    ensures
        r@ == section_body(section@, season_id),
{
    let fields: Vec<(String, Json)> = vec![
        (copy_text("type"), Json::Int(section.section_type)),
        (copy_text("seasonId"), Json::Int(season_id)),
        (copy_text("title"), str_value(&section.title)),
        (copy_text("captcha_token"), empty_value()),
    ];
    proof {
        lemma_object_view(fields);
        assert(fields_view(fields@) =~= section_body(section@, season_id)->Object_0);
    }
    Json::Object(fields)
}

fn make_sort_body(id: i64, sort: Json) -> (r: Json)
    requires
        sort@ is Number,
    ensures
        r@ == sort_body(id, sort@->Number_0),
{
    let ghost place = sort@->Number_0;
    let fields: Vec<(String, Json)> = vec![
        (copy_text("id"), Json::Int(id)),
        (copy_text("sort"), sort),
    ];
    proof {
        lemma_object_view(fields);
        assert(fields_view(fields@) =~= sort_body(id, place)->Object_0);
    }
    Json::Object(fields)
}

fn make_order_body(backup: &SeasonBackup, season_id: i64, ids: &Vec<i64>) -> (r: Json)
    ensures
        r@ == order_body(*backup, season_id, ids@),
{
    let ghost all = Seq::new(ids@.len(), |i: int| sort_body(ids@[i], i + 1));
    let ghost whole = order_body(*backup, season_id, ids@)->Object_0;
    let mut sorts: Vec<Json> = Vec::new();
    let mut i: usize = 0;
    assert(list_view(sorts@) =~= all.take(0));
    while i < ids.len()
        invariant
            i <= ids@.len(),
            all == Seq::new(ids@.len(), |i: int| sort_body(ids@[i], i + 1)),
            list_view(sorts@) == all.take(i as int),
        decreases ids.len() - i,
    {
        let ghost before = list_view(sorts@);
        let entry = make_sort_body(ids[i], Json::UInt(i as u64 + 1));
        let ghost added = entry@;
        sorts.push(entry);
        assert(list_view(sorts@) =~= before.push(added));
        assert(all.take(i + 1) =~= all.take(i as int).push(all[i as int]));
        i += 1;
    }
    assert(all.take(i as int) =~= all);
    let season: Vec<(String, Json)> = vec![
        (copy_text("id"), Json::Int(season_id)),
        (copy_text("title"), str_value(&backup.title)),
        (copy_text("desc"), str_value(&backup.description)),
        (copy_text("cover"), str_value(&backup.cover)),
        (copy_text("isEnd"), Json::Int(0)),
        (copy_text("season_price"), Json::Int(backup.season_price)),
        (copy_text("captcha_token"), empty_value()),
    ];
    proof {
        lemma_array_view(sorts);
        lemma_object_view(season);
        assert(fields_view(season@) =~= whole[0].1->Object_0);
    }
    let fields: Vec<(String, Json)> = vec![
        (copy_text("season"), Json::Object(season)),
        (copy_text("sorts"), Json::Array(sorts)),
    ];
    proof {
        lemma_object_view(fields);
        assert(fields_view(fields@) =~= whole);
    }
    Json::Object(fields)
}

fn make_episode_body(e: &SeasonEpisodeBackup) -> (r: Json)
    ensures
        r@ == episode_body(e@),
{
    let fields: Vec<(String, Json)> = vec![
        (copy_text("title"), str_value(&e.title)),
        (copy_text("aid"), Json::Int(e.aid)),
        (copy_text("cid"), Json::Int(e.cid)),
        (copy_text("charging_pay"), Json::Int(e.charging_pay)),
        (copy_text("member_first"), Json::Int(e.member_first)),
        (copy_text("limited_free"), Json::Bool(e.limited_free)),
    ];
    proof {
        lemma_object_view(fields);
        assert(fields_view(fields@) =~= episode_body(e@)->Object_0);
    }
    Json::Object(fields)
}

fn make_episodes_body(
    section_id: i64,
    episodes: &Vec<SeasonEpisodeBackup>,
    positions: &Vec<usize>,
) -> (r: Json)
    requires
        forall|i: int| 0 <= i < positions@.len() ==> #[trigger] positions@[i] < episodes@.len(),
    ensures
        r@ == episodes_body(section_id, episode_views(episodes@), int_views(positions@)),
{
    let ghost views = episode_views(episodes@);
    let ghost at = int_views(positions@);
    let ghost all = Seq::new(at.len(), |i: int| episode_body(views[at[i]]));
    let mut list: Vec<Json> = Vec::new();
    let mut i: usize = 0;
    assert(list_view(list@) =~= all.take(0));
    while i < positions.len()
        invariant
            i <= positions@.len(),
            forall|i: int| 0 <= i < positions@.len() ==> #[trigger] positions@[i] < episodes@.len(),
            views == episode_views(episodes@),
            at == int_views(positions@),
            all == Seq::new(at.len(), |i: int| episode_body(views[at[i]])),
            list_view(list@) == all.take(i as int),
        decreases positions.len() - i,
    {
        let ghost before = list_view(list@);
        let entry = make_episode_body(&episodes[positions[i]]);
        let ghost added = entry@;
        assert(at[i as int] == positions@[i as int]);
        assert(added == all[i as int]);
        list.push(entry);
        assert(list_view(list@) =~= before.push(added));
        assert(all.take(i + 1) =~= all.take(i as int).push(all[i as int]));
        i += 1;
    }
    assert(all.take(i as int) =~= all);
    proof {
        lemma_array_view(list);
    }
    let fields: Vec<(String, Json)> = vec![
        (copy_text("sectionId"), Json::Int(section_id)),
        (copy_text("episodes"), Json::Array(list)),
    ];
    proof {
        lemma_object_view(fields);
        assert(fields_view(fields@) =~= episodes_body(section_id, views, at)->Object_0);
    }
    Json::Object(fields)
}

fn make_sorted_body(
    section: &SeasonSectionBackup,
    section_id: i64,
    season_id: i64,
    entries: &Vec<SortEntry>,
) -> (r: Json)
    ensures
        r@ == sorted_body(section@, section_id, season_id, entries@),
{
    let ghost all = Seq::new(
        entries@.len(),
        |i: int| sort_body(entries@[i].id, entries@[i].sort as int),
    );
    let ghost whole = sorted_body(section@, section_id, season_id, entries@)->Object_0;
    let mut sorts: Vec<Json> = Vec::new();
    let mut i: usize = 0;
    assert(list_view(sorts@) =~= all.take(0));
    while i < entries.len()
        invariant
            i <= entries@.len(),
            all == Seq::new(
                entries@.len(),
                |i: int| sort_body(entries@[i].id, entries@[i].sort as int),
            ),
            list_view(sorts@) == all.take(i as int),
        decreases entries.len() - i,
    {
        let ghost before = list_view(sorts@);
        let entry = make_sort_body(entries[i].id, Json::Int(entries[i].sort));
        let ghost added = entry@;
        sorts.push(entry);
        assert(list_view(sorts@) =~= before.push(added));
        assert(all.take(i + 1) =~= all.take(i as int).push(all[i as int]));
        i += 1;
    }
    assert(all.take(i as int) =~= all);
    let told: Vec<(String, Json)> = vec![
        (copy_text("id"), Json::Int(section_id)),
        (copy_text("type"), Json::Int(section.section_type)),
        (copy_text("seasonId"), Json::Int(season_id)),
        (copy_text("title"), str_value(&section.title)),
    ];
    proof {
        lemma_array_view(sorts);
        lemma_object_view(told);
        assert(fields_view(told@) =~= whole[0].1->Object_0);
    }
    let fields: Vec<(String, Json)> = vec![
        (copy_text("section"), Json::Object(told)),
        (copy_text("sorts"), Json::Array(sorts)),
        (copy_text("captcha_token"), empty_value()),
    ];
    proof {
        lemma_object_view(fields);
        assert(fields_view(fields@) =~= whole);
    }
    Json::Object(fields)
}

fn make_adding_body(job: &RestoreJob, k: usize) -> (r: Json)
    requires
        job@.wf(),
        match job.phase {
            RestorePhase::AddEpisodes(at, _) => at == k,
            RestorePhase::AddEpisode(at, _, _) => at == k,
            _ => false,
        },
    ensures
        r@ == episodes_body(
            job@.section_ids[k as int],
            job@.sections[k as int].episodes,
            job@.to_add(),
        ),
{
    let positions = job.episodes_to_add();
    let section = &job.sections[k];
    proof {
        assert(job@.sections[k as int] == section@);
        lemma_addable_bound(section@.episodes);
        assert forall|i: int| 0 <= i < positions@.len() implies #[trigger] positions@[i]
            < section.episodes@.len() by {
            assert(int_views(positions@)[i] == positions@[i]);
        }
    }
    make_episodes_body(job.section_ids[k], &section.episodes, &positions)
}

/// What the request of a step says, where it sends a JSON value. `added` holds the episodes that
/// the section at hand has been given.
pub fn restore_body(job: &RestoreJob, backup: &SeasonBackup, added: &Vec<Json>) -> (r: Option<Json>)
    requires
        job@.wf(),
    ensures
        match r {
            Some(body) => request_body(job@, *backup, list_view(added@)) == Some(body@),
            None => request_body(job@, *backup, list_view(added@)) is None,
        },
{
    assert(job@.sections.len() == job.sections@.len());
    match job.phase {
        RestorePhase::CreateSeason => Some(make_season_body(backup)),
        RestorePhase::CreateSection(k) => {
            assert(job@.sections[k as int] == job.sections@[k as int]@);
            Some(make_section_body(&job.sections[k], job.new_season_id))
        },
        RestorePhase::SaveOrderBefore | RestorePhase::SaveOrderAfter => Some(
            make_order_body(backup, job.new_season_id, &job.section_ids),
        ),
        RestorePhase::AddEpisodes(k, _) => Some(make_adding_body(job, k)),
        RestorePhase::AddEpisode(k, _, _) => Some(make_adding_body(job, k)),
        RestorePhase::SortSection(k) => {
            assert(job@.sections[k as int] == job.sections@[k as int]@);
            let section = &job.sections[k];
            let sorts = build_episode_sorts(&section.episodes, added);
            Some(make_sorted_body(section, job.section_ids[k], job.new_season_id, &sorts))
        },
        _ => None,
    }
}

// ---------------------------------------------------------------------------
// Forms

/// The fields of the request of a step, where it sends a form.
pub open spec fn request_form(job: JobView) -> Seq<(Seq<char>, Seq<char>)> {
    match job.phase {
        RestorePhase::SwitchMode => seq![
            ("season_id"@, decimal(job.new_season_id as int)),
            ("no_section"@, decimal(job.expected_no_section as int)),
        ],
        RestorePhase::DeleteDefault => match job.default_section {
            Some(id) => seq![("id"@, decimal(id as int))],
            None => Seq::empty(),
        },
        _ => Seq::empty(),
    }
}

/// The fields of the request of a step, where it sends a form.
pub fn restore_form(job: &RestoreJob) -> (r: Vec<(String, String)>)
    ensures
        pair_views(r@) == request_form(job@),
{
    let mut out: Vec<(String, String)> = Vec::new();
    match job.phase {
        RestorePhase::SwitchMode => {
            out.push((copy_text("season_id"), i64_text(job.new_season_id)));
            out.push((copy_text("no_section"), i64_text(job.expected_no_section)));
        },
        RestorePhase::DeleteDefault => {
            if let Some(id) = job.default_section {
                out.push((copy_text("id"), i64_text(id)));
            }
        },
        _ => {},
    }
    assert(pair_views(out@) =~= request_form(job@));
    out
}

// ---------------------------------------------------------------------------
// Answers

/// Whether a season that was made is told to have no sections, as its details give it.
pub fn found_no_section(detail: &Json) -> (r: Option<i64>)
    ensures
        r == (match field(detail@, "season"@) {
            Some(season) => integer_at(season, "no_section"@),
            None => None,
        }),
{
    match detail.get("season") {
        Some(season) => season.get_i64("no_section"),
        None => None,
    }
}

/// Every episode that a request adds has an archive and a video, and no request adds more of them
/// than one request takes.
pub proof fn law_request_adds_known_episodes(job: JobView, i: int)
    requires
        job.wf(),
        0 <= i < job.to_add().len(),
    ensures
        job.to_add().len() <= EPISODE_CHUNK,
        match job.phase {
            RestorePhase::AddEpisodes(k, _) => addable(
                job.sections[k as int].episodes[job.to_add()[i]],
            ),
            RestorePhase::AddEpisode(k, _, _) => addable(
                job.sections[k as int].episodes[job.to_add()[i]],
            ),
            _ => false,
        },
{
    match job.phase {
        RestorePhase::AddEpisodes(k, at) => {
            lemma_addable(job.sections[k as int].episodes, at + i);
        },
        RestorePhase::AddEpisode(k, at, _) => {
            lemma_addable(job.sections[k as int].episodes, at as int);
        },
        _ => {},
    }
}

proof fn lemma_addable(episodes: Seq<EpisodeView>, i: int)
    requires
        0 <= i < addable_at(episodes).len(),
    ensures
        addable(episodes[addable_at(episodes)[i]]),
    decreases episodes.len(),
{
    let before = addable_at(episodes.drop_last());
    lemma_addable_bound(episodes.drop_last());
    if i < before.len() {
        lemma_addable(episodes.drop_last(), i);
        assert(episodes.drop_last()[before[i]] == episodes[before[i]]);
    }
}

// ---------------------------------------------------------------------------
// What the requests amount to

proof fn lemma_keys()
    ensures
        "id"@.len() == 2,
        "aid"@ == seq!['a', 'i', 'd'],
        "cid"@ == seq!['c', 'i', 'd'],
        "type"@ == seq!['t', 'y', 'p', 'e'],
        "desc"@ == seq!['d', 'e', 's', 'c'],
        "sort"@ == seq!['s', 'o', 'r', 't'],
        "title"@ == seq!['t', 'i', 't', 'l', 'e'],
        "cover"@ == seq!['c', 'o', 'v', 'e', 'r'],
        "isEnd"@ == seq!['i', 's', 'E', 'n', 'd'],
        "sorts"@ == seq!['s', 'o', 'r', 't', 's'],
        "season"@.len() == 6,
        "section"@.len() == 7,
        "seasonId"@ == seq!['s', 'e', 'a', 's', 'o', 'n', 'I', 'd'],
        "episodes"@ == seq!['e', 'p', 'i', 's', 'o', 'd', 'e', 's'],
        "sectionId"@.len() == 9,
        "season_price"@[0] == 's',
        "season_price"@.len() == 12,
        "charging_pay"@[0] == 'c',
        "charging_pay"@.len() == 12,
        "member_first"@[0] == 'm',
        "member_first"@.len() == 12,
        "limited_free"@[0] == 'l',
        "limited_free"@.len() == 12,
        "captcha_token"@.len() == 13,
{
    reveal_strlit("id");
    reveal_strlit("aid");
    reveal_strlit("cid");
    reveal_strlit("type");
    reveal_strlit("desc");
    reveal_strlit("sort");
    reveal_strlit("title");
    reveal_strlit("cover");
    reveal_strlit("isEnd");
    reveal_strlit("sorts");
    reveal_strlit("season");
    reveal_strlit("section");
    reveal_strlit("seasonId");
    reveal_strlit("episodes");
    reveal_strlit("sectionId");
    reveal_strlit("season_price");
    reveal_strlit("charging_pay");
    reveal_strlit("member_first");
    reveal_strlit("limited_free");
    reveal_strlit("captcha_token");
    assert("aid"@ =~= seq!['a', 'i', 'd']);
    assert("cid"@ =~= seq!['c', 'i', 'd']);
    assert("type"@ =~= seq!['t', 'y', 'p', 'e']);
    assert("desc"@ =~= seq!['d', 'e', 's', 'c']);
    assert("sort"@ =~= seq!['s', 'o', 'r', 't']);
    assert("title"@ =~= seq!['t', 'i', 't', 'l', 'e']);
    assert("cover"@ =~= seq!['c', 'o', 'v', 'e', 'r']);
    assert("isEnd"@ =~= seq!['i', 's', 'E', 'n', 'd']);
    assert("sorts"@ =~= seq!['s', 'o', 'r', 't', 's']);
    assert("seasonId"@ =~= seq!['s', 'e', 'a', 's', 'o', 'n', 'I', 'd']);
    assert("episodes"@ =~= seq!['e', 'p', 'i', 's', 'o', 'd', 'e', 's']);
}

/// A new season is asked for with the title, the description, the cover and the price that were
/// saved.
pub proof fn law_season_request(job: JobView, backup: SeasonBackup, added: Seq<JsonView>)
    requires
        job.phase is CreateSeason,
    ensures
        request_body(job, backup, added) matches Some(body) && {
            &&& text_at(body, "title"@) == Some(backup.title@)
            &&& text_at(body, "desc"@) == Some(backup.description@)
            &&& text_at(body, "cover"@) == Some(backup.cover@)
            &&& integer_at(body, "season_price"@) == Some(backup.season_price)
        },
{
    lemma_keys();
    let fields = season_body(backup)->Object_0;
    lemma_field_at(fields, 0);
    lemma_field_at(fields, 1);
    lemma_field_at(fields, 2);
    lemma_field_at(fields, 3);
}

/// A section is asked for in the new season, with the type and the title that were saved.
pub proof fn law_section_request(
    job: JobView,
    backup: SeasonBackup,
    added: Seq<JsonView>,
    k: usize,
)
    requires
        job.wf(),
        job.phase == RestorePhase::CreateSection(k),
    ensures
        request_body(job, backup, added) matches Some(body) && {
            &&& integer_at(body, "seasonId"@) == Some(job.new_season_id)
            &&& integer_at(body, "type"@) == Some(job.sections[k as int].section_type)
            &&& text_at(body, "title"@) == Some(job.sections[k as int].title)
        },
{
    lemma_keys();
    let fields = section_body(job.sections[k as int], job.new_season_id)->Object_0;
    lemma_field_at(fields, 0);
    lemma_field_at(fields, 1);
    lemma_field_at(fields, 2);
}

/// The request that saves the order of the sections keeps that of the backup: the section at a
/// place gets the place behind those of all sections before it, the first one the place one. It
/// tells of the season what was saved.
pub proof fn law_section_order_kept(
    job: JobView,
    backup: SeasonBackup,
    added: Seq<JsonView>,
    i: int,
    j: int,
)
    requires
        job.wf(),
        job.phase is SaveOrderBefore || job.phase is SaveOrderAfter,
    ensures
        request_body(job, backup, added) matches Some(body) && {
            &&& field(body, "season"@) matches Some(season) && {
                &&& integer_at(season, "id"@) == Some(job.new_season_id)
                &&& text_at(season, "title"@) == Some(backup.title@)
                &&& text_at(season, "desc"@) == Some(backup.description@)
                &&& text_at(season, "cover"@) == Some(backup.cover@)
                &&& integer_at(season, "season_price"@) == Some(backup.season_price)
            }
            &&& items_at(body, "sorts"@) matches Some(sorts) && {
                &&& sorts.len() == job.sections.len()
                &&& 0 <= i < j < job.sections.len() ==> {
                    &&& integer_at(sorts[i], "id"@) == Some(job.section_ids[i])
                    &&& integer_at(sorts[j], "id"@) == Some(job.section_ids[j])
                    &&& field(sorts[i], "sort"@) matches Some(JsonView::Number(a)) && field(
                        sorts[j],
                        "sort"@,
                    ) matches Some(JsonView::Number(b)) && b - a == j - i
                }
                &&& job.sections.len() > 0 ==> integer_at(sorts[0], "id"@) == Some(
                    job.section_ids[0],
                ) && integer_at(sorts[0], "sort"@) == Some(1i64)
            }
        },
{
    lemma_keys();
    let ids = job.section_ids;
    let fields = order_body(backup, job.new_season_id, ids)->Object_0;
    lemma_field_at(fields, 0);
    lemma_field_at(fields, 1);
    let season = fields[0].1->Object_0;
    lemma_field_at(season, 0);
    lemma_field_at(season, 1);
    lemma_field_at(season, 2);
    lemma_field_at(season, 3);
    lemma_field_at(season, 5);
    let sorts = fields[1].1->Array_0;
    assert(sorts.len() == ids.len());
    if 0 <= i < j < ids.len() {
        lemma_field_at(sorts[i]->Object_0, 0);
        lemma_field_at(sorts[i]->Object_0, 1);
        lemma_field_at(sorts[j]->Object_0, 0);
        lemma_field_at(sorts[j]->Object_0, 1);
    }
    if ids.len() > 0 {
        lemma_field_at(sorts[0]->Object_0, 0);
        lemma_field_at(sorts[0]->Object_0, 1);
        assert(integer(JsonView::Number(1)) == Some(1i64));
    }
}

/// A request that adds episodes names the new section of their own, and tells of each of them, in
/// their order, what was saved.
pub proof fn law_episode_request(
    job: JobView,
    backup: SeasonBackup,
    added: Seq<JsonView>,
    k: int,
    i: int,
)
    requires
        job.wf(),
        match job.phase {
            RestorePhase::AddEpisodes(at, _) => at == k,
            RestorePhase::AddEpisode(at, _, _) => at == k,
            _ => false,
        },
        0 <= i < job.to_add().len(),
    ensures
        request_body(job, backup, added) matches Some(body) && {
            let e = job.sections[k].episodes[job.to_add()[i]];
            &&& integer_at(body, "sectionId"@) == Some(job.section_ids[k])
            &&& items_at(body, "episodes"@) matches Some(list) && {
                &&& list.len() == job.to_add().len()
                &&& text_at(list[i], "title"@) == Some(e.title)
                &&& integer_at(list[i], "aid"@) == Some(e.aid)
                &&& integer_at(list[i], "cid"@) == Some(e.cid)
                &&& integer_at(list[i], "charging_pay"@) == Some(e.charging_pay)
                &&& integer_at(list[i], "member_first"@) == Some(e.member_first)
                &&& truth_at(list[i], "limited_free"@) == Some(e.limited_free)
            }
        },
{
    lemma_keys();
    let fields = episodes_body(
        job.section_ids[k],
        job.sections[k].episodes,
        job.to_add(),
    )->Object_0;
    lemma_field_at(fields, 0);
    lemma_field_at(fields, 1);
    let list = fields[1].1->Array_0;
    let e = list[i]->Object_0;
    lemma_field_at(e, 0);
    lemma_field_at(e, 1);
    lemma_field_at(e, 2);
    lemma_field_at(e, 3);
    lemma_field_at(e, 4);
    lemma_field_at(e, 5);
}

/// A request that adds a batch offers the episodes behind those that were offered before, without
/// a gap and as many as one request takes: the first of them is the one at the position that the
/// step has come to, among the episodes that can be added.
pub proof fn law_batch_has_no_gap(job: JobView, k: usize, at: usize, i: int)
    requires
        job.wf(),
        job.phase == RestorePhase::AddEpisodes(k, at),
        0 <= i < job.to_add().len(),
    ensures
        job.to_add()[i] == addable_at(job.sections[k as int].episodes)[at + i],
        job.to_add().len() == 50 || at + job.to_add().len() == addable_at(
            job.sections[k as int].episodes,
        ).len(),
{
}

/// Tells whether an entry of a new section is the first that stands for an archive and a video.
pub open spec fn first_for(added: Seq<JsonView>, aid: i64, cid: i64, a: int) -> bool {
    &&& 0 <= a < added.len()
    &&& integer_at(added[a], "aid"@) == Some(aid)
    &&& integer_at(added[a], "cid"@) == Some(cid)
    &&& forall|n: int|
        0 <= n < a ==> !(integer_at(#[trigger] added[n], "aid"@) == Some(aid) && integer_at(
            added[n],
            "cid"@,
        ) == Some(cid))
}

/// The order of the episodes of a section is saved by their new identifiers: every entry of the
/// request stands for a saved episode, at the place where that was saved, the places rise, and no
/// episode that the new section holds is left out.
pub proof fn law_episode_order_kept(
    job: JobView,
    backup: SeasonBackup,
    added: Seq<JsonView>,
    k: usize,
    i: int,
    j: int,
    e: int,
)
    requires
        job.wf(),
        job.phase == RestorePhase::SortSection(k),
        job.sections[k as int].episodes.len() <= i64::MAX,
    ensures
        request_body(job, backup, added) matches Some(body) && {
            let episodes = job.sections[k as int].episodes;
            &&& field(body, "section"@) matches Some(section) && {
                &&& integer_at(section, "id"@) == Some(job.section_ids[k as int])
                &&& integer_at(section, "type"@) == Some(job.sections[k as int].section_type)
                &&& integer_at(section, "seasonId"@) == Some(job.new_season_id)
                &&& text_at(section, "title"@) == Some(job.sections[k as int].title)
            }
            &&& items_at(body, "sorts"@) matches Some(sorts) && {
                &&& 0 <= i < sorts.len() ==> (integer_at(sorts[i], "sort"@) matches Some(place) && {
                    &&& 1 <= place <= episodes.len()
                    &&& exists|a: int|
                        0 <= a < added.len() && integer_at(#[trigger] added[a], "aid"@) == Some(
                            episodes[place - 1].aid,
                        ) && integer_at(added[a], "cid"@) == Some(episodes[place - 1].cid)
                            && integer_at(added[a], "id"@) == integer_at(sorts[i], "id"@)
                })
                &&& 0 <= i < j < sorts.len() ==> (integer_at(sorts[i], "sort"@) matches Some(a)
                    && integer_at(sorts[j], "sort"@) matches Some(b) && a < b)
                &&& 0 <= e < episodes.len() && (exists|a: int| #[trigger]
                    first_for(added, episodes[e].aid, episodes[e].cid, a) && integer_at(
                        added[a],
                        "id"@,
                    ) is Some) ==> exists|n: int|
                    0 <= n < sorts.len() && integer_at(#[trigger] sorts[n], "sort"@) == Some(
                        (e + 1) as i64,
                    )
            }
        },
{
    lemma_keys();
    let section = job.sections[k as int];
    let entries = episode_sorts(section.episodes, added);
    let fields = sorted_body(section, job.section_ids[k as int], job.new_season_id, entries)->Object_0;
    lemma_field_at(fields, 0);
    lemma_field_at(fields, 1);
    let told = fields[0].1->Object_0;
    lemma_field_at(told, 0);
    lemma_field_at(told, 1);
    lemma_field_at(told, 2);
    lemma_field_at(told, 3);
    let sorts = fields[1].1->Array_0;
    assert(sorts.len() == entries.len());
    if 0 <= i < sorts.len() {
        lemma_field_at(sorts[i]->Object_0, 0);
        lemma_field_at(sorts[i]->Object_0, 1);
        lemma_sorts(section.episodes, added, i, i);
    }
    if 0 <= i < j < sorts.len() {
        lemma_field_at(sorts[j]->Object_0, 0);
        lemma_field_at(sorts[j]->Object_0, 1);
        lemma_sorts(section.episodes, added, i, j);
    }
    if 0 <= e < section.episodes.len() {
        let aid = section.episodes[e].aid;
        let cid = section.episodes[e].cid;
        if exists|a: int| #[trigger]
            first_for(added, aid, cid, a) && integer_at(added[a], "id"@) is Some {
            let a = choose|a: int| #[trigger]
                first_for(added, aid, cid, a) && integer_at(added[a], "id"@) is Some;
            assert(integer_at(added[a], "aid"@) == Some(aid));
            let first = lemma_first_entry(added, aid, cid);
            assert(first == a);
            let n = lemma_sorts_hold(section.episodes, added, e);
            lemma_field_at(sorts[n]->Object_0, 1);
            assert(integer_at(sorts[n], "sort"@) == Some((e + 1) as i64));
        }
    }
}

proof fn lemma_new_id(added: Seq<JsonView>, aid: i64, cid: i64) -> (a: int)
    requires
        new_id(added, aid, cid) is Some,
    ensures
        0 <= a < added.len(),
        integer_at(added[a], "aid"@) == Some(aid),
        integer_at(added[a], "cid"@) == Some(cid),
        integer_at(added[a], "id"@) == new_id(added, aid, cid),
    decreases added.len(),
{
    if integer_at(added[0], "aid"@) == Some(aid) && integer_at(added[0], "cid"@) == Some(cid) {
        0
    } else {
        let b = lemma_new_id(added.drop_first(), aid, cid);
        assert(added.drop_first()[b] == added[b + 1]);
        b + 1
    }
}

proof fn lemma_first_entry(added: Seq<JsonView>, aid: i64, cid: i64) -> (a: int)
    requires
        exists|a: int|
            0 <= a < added.len() && integer_at(#[trigger] added[a], "aid"@) == Some(aid)
                && integer_at(added[a], "cid"@) == Some(cid),
    ensures
        first_for(added, aid, cid, a),
        new_id(added, aid, cid) == integer_at(added[a], "id"@),
    decreases added.len(),
{
    if integer_at(added[0], "aid"@) == Some(aid) && integer_at(added[0], "cid"@) == Some(cid) {
        0
    } else {
        let rest = added.drop_first();
        let b = choose|a: int|
            0 <= a < added.len() && integer_at(#[trigger] added[a], "aid"@) == Some(aid)
                && integer_at(added[a], "cid"@) == Some(cid);
        assert(rest[b - 1] == added[b]);
        let c = lemma_first_entry(rest, aid, cid);
        assert forall|n: int| 0 <= n < c + 1 implies !(integer_at(#[trigger] added[n], "aid"@)
            == Some(aid) && integer_at(added[n], "cid"@) == Some(cid)) by {
            if n > 0 {
                assert(rest[n - 1] == added[n]);
            }
        }
        c + 1
    }
}

proof fn lemma_sorts(original: Seq<EpisodeView>, added: Seq<JsonView>, i: int, j: int)
    requires
        original.len() <= i64::MAX,
        0 <= i <= j < episode_sorts(original, added).len(),
    ensures
        ({
            let entry = episode_sorts(original, added)[i];
            &&& 1 <= entry.sort <= original.len()
            &&& exists|a: int|
                0 <= a < added.len() && integer_at(#[trigger] added[a], "aid"@) == Some(
                    original[entry.sort - 1].aid,
                ) && integer_at(added[a], "cid"@) == Some(original[entry.sort - 1].cid)
                    && integer_at(added[a], "id"@) == Some(entry.id)
            &&& i < j ==> entry.sort < episode_sorts(original, added)[j].sort
        }),
    decreases original.len(),
{
    let rest = original.drop_last();
    let before = episode_sorts(rest, added);
    let all = episode_sorts(original, added);
    if j < before.len() {
        lemma_sorts(rest, added, i, j);
        assert(all[i] == before[i] && all[j] == before[j]);
        assert(rest[all[i].sort - 1] == original[all[i].sort - 1]);
    } else {
        if i < j {
            lemma_sorts(rest, added, i, i);
            assert(all[i] == before[i]);
            assert(rest[all[i].sort - 1] == original[all[i].sort - 1]);
        } else {
            let a = lemma_new_id(added, original.last().aid, original.last().cid);
            assert(integer_at(added[a], "aid"@) == Some(original[all[i].sort - 1].aid));
        }
    }
}

proof fn lemma_sorts_hold(original: Seq<EpisodeView>, added: Seq<JsonView>, e: int) -> (n: int)
    requires
        original.len() <= i64::MAX,
        0 <= e < original.len(),
        new_id(added, original[e].aid, original[e].cid) is Some,
    ensures
        0 <= n < episode_sorts(original, added).len(),
        episode_sorts(original, added)[n].sort == e + 1,
    decreases original.len(),
{
    let rest = original.drop_last();
    let before = episode_sorts(rest, added);
    if e < rest.len() {
        assert(rest[e] == original[e]);
        let n = lemma_sorts_hold(rest, added, e);
        assert(episode_sorts(original, added)[n] == before[n]);
        n
    } else {
        before.len() as int
    }
}

/// A form names the season and its mode, or the section that is to go.
pub proof fn law_form_of_step(job: JobView)
    ensures
        job.phase == RestorePhase::SwitchMode ==> request_form(job).contains(
            ("season_id"@, decimal(job.new_season_id as int)),
        ) && request_form(job).contains(
            ("no_section"@, decimal(job.expected_no_section as int)),
        ) && request_form(job).len() == 2,
        job.phase == RestorePhase::DeleteDefault && job.default_section is Some ==> request_form(job)
            == seq![("id"@, decimal(job.default_section->0 as int))],
{
    if job.phase == RestorePhase::SwitchMode {
        let form = request_form(job);
        assert(form[0] == ("season_id"@, decimal(job.new_season_id as int)));
        assert(form[1] == ("no_section"@, decimal(job.expected_no_section as int)));
    }
}

} // verus!
