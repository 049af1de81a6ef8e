//! The search for the publish times of archives, page by page.

use crate::json::{integer_at, list_view, or_number, Json, JsonView};
use crate::season::{
    archive_aid_from_audit_item, archive_publish_time_from_audit_item, audit_aid, audit_time,
    section_views, EpisodeView, SeasonSectionBackup, SectionView,
};
use std::collections::{HashMap, HashSet};
use vstd::prelude::*;

verus! {

broadcast use vstd::std_specs::hash::group_hash_axioms;

/// The archives on a page.
pub const ARCHIVE_PAGE_SIZE: i64 = 20;

/// The archives of the episodes of a list whose publish time is to be searched for.
pub open spec fn wanted_in(episodes: Seq<EpisodeView>, wanted: Set<i64>) -> Set<i64>
    decreases episodes.len(),
{
    if episodes.len() == 0 {
        wanted
    } else {
        let before = wanted_in(episodes.drop_last(), wanted);
        let e = episodes.last();
        if e.aid > 0 && e.published_at is None {
            before.insert(e.aid)
        } else {
            before
        }
    }
}

/// The archives of the episodes of all sections whose publish time is to be searched for.
pub open spec fn wanted_archives(sections: Seq<SectionView>) -> Set<i64>
    decreases sections.len(),
{
    if sections.len() == 0 {
        Set::empty()
    } else {
        wanted_in(sections.last().episodes, wanted_archives(sections.drop_last()))
    }
}

/// The archives whose publish time is to be searched for.
pub fn archives_without_time(sections: &Vec<SeasonSectionBackup>) -> (r: HashSet<i64>)
    ensures
        r@ == wanted_archives(section_views(sections@)),
{
    let mut wanted: HashSet<i64> = HashSet::new();
    let ghost all = section_views(sections@);
    let mut i: usize = 0;
    assert(all.take(0) =~= Seq::<SectionView>::empty());
    assert(wanted@ =~= Set::<i64>::empty());
    while i < sections.len()
        invariant
            i <= sections@.len(),
            all == section_views(sections@),
            wanted@ == wanted_archives(all.take(i as int)),
        decreases sections.len() - i,
    {
        assert(all.take(i + 1).drop_last() =~= all.take(i as int));
        let ghost base = wanted@;
        let ghost eps = sections@[i as int]@.episodes;
        assert(all.take(i + 1).last().episodes == eps);
        let mut k: usize = 0;
        assert(eps.take(0) =~= Seq::<EpisodeView>::empty());
        while k < sections[i].episodes.len()
            invariant
                i < sections@.len(),
                k <= sections@[i as int].episodes@.len(),
                eps == crate::season::episode_views(sections@[i as int].episodes@),
                wanted@ == wanted_in(eps.take(k as int), base),
            decreases sections@[i as int].episodes@.len() - k,
        {
            assert(eps.take(k + 1).drop_last() =~= eps.take(k as int));
            assert(eps.take(k + 1).last() == sections@[i as int].episodes@[k as int]@);
            let aid: i64 = sections[i].episodes[k].aid;
            if aid > 0 && sections[i].episodes[k].published_at.is_none() {
                wanted.insert(aid);
            }
            k += 1;
        }
        assert(eps.take(k as int) =~= eps);
        i += 1;
    }
    assert(all.take(i as int) =~= all);
    wanted
}

/// What is still searched for, and what was found.
pub ghost struct TimeSearch {
    pub wanted: Set<i64>,
    pub found: Map<i64, i64>,
}

/// The search once the entries of a page are noted: an entry counts where its archive is
/// wanted and it tells a publish time.
pub open spec fn noted(search: TimeSearch, page: Seq<JsonView>) -> TimeSearch
    decreases page.len(),
{
    if page.len() == 0 {
        search
    } else {
        let before = noted(search, page.drop_last());
        match (audit_aid(page.last()), audit_time(page.last())) {
            (Some(aid), Some(time)) => if before.wanted.contains(aid) {
                TimeSearch {
                    wanted: before.wanted.remove(aid),
                    found: before.found.insert(aid, time),
                }
            } else {
                before
            },
            _ => before,
        }
    }
}

/// Notes the entries of a page.
pub fn note_audit_page(
    page: &Vec<Json>,
    target_aids: &mut HashSet<i64>,
    result: &mut HashMap<i64, i64>,
)
    ensures
        (TimeSearch { wanted: final(target_aids)@, found: final(result)@ }) == noted(
            TimeSearch { wanted: old(target_aids)@, found: old(result)@ },
            list_view(page@),
        ),
{
    let ghost all = list_view(page@);
    let ghost start = TimeSearch { wanted: target_aids@, found: result@ };
    let mut i: usize = 0;
    assert(all.take(0) =~= Seq::<JsonView>::empty());
    while i < page.len()
        invariant
            i <= page@.len(),
            all == list_view(page@),
            (TimeSearch { wanted: target_aids@, found: result@ }) == noted(
                start,
                all.take(i as int),
            ),
        decreases page.len() - i,
    {
        assert(all.take(i + 1).drop_last() =~= all.take(i as int));
        assert(all.take(i + 1).last() == page@[i as int]@);
        if let Some(aid) = archive_aid_from_audit_item(&page[i]) {
            if target_aids.contains(&aid) {
                if let Some(time) = archive_publish_time_from_audit_item(&page[i]) {
                    target_aids.remove(&aid);
                    result.insert(aid, time);
                }
            }
        }
        i += 1;
    }
    assert(all.take(i as int) =~= all);
}

/// A found archive is no longer searched for, and none is found that was not wanted.
pub proof fn law_search_moves(search: TimeSearch, page: Seq<JsonView>, aid: i64)
    ensures
        noted(search, page).wanted.contains(aid) ==> search.wanted.contains(aid),
        search.wanted.contains(aid) && !noted(search, page).wanted.contains(aid) ==> noted(
            search,
            page,
        ).found.dom().contains(aid),
        !search.wanted.contains(aid) ==> (noted(search, page).found.dom().contains(aid)
            <==> search.found.dom().contains(aid)),
    decreases page.len(),
{
    if page.len() > 0 {
        law_search_moves(search, page.drop_last(), aid);
    }
}

/// Tells whether the next page has to be asked for: something is still searched for, the page
/// was not empty, and the pages so far do not hold all.
pub fn next_page_needed(
    page: i64,
    total_count: i64,
    page_empty: bool,
    target_aids: &HashSet<i64>,
) -> (r: bool)
    requires
        1 <= page <= i64::MAX / 20,
    ensures
        r == (!target_aids@.is_empty() && total_count > 0 && page * ARCHIVE_PAGE_SIZE < total_count
            && !page_empty),
{
    if target_aids.is_empty() {
        return false;
    }
    total_count > 0 && page * ARCHIVE_PAGE_SIZE < total_count && !page_empty
}

/// The number of archives in all pages that an answer tells.
pub fn page_total(data: &Json) -> (r: i64)
    ensures
        r == (match crate::json::field(data@, "page"@) {
            Some(page) => or_number(integer_at(page, "count"@), 0),
            None => 0,
        }),
{
    match data.get("page") {
        Some(page) => page.get_i64_or("count", 0),
        None => 0,
    }
}

proof fn lemma_wanted_in(episodes: Seq<EpisodeView>, wanted: Set<i64>, aid: i64)
    ensures
        wanted_in(episodes, wanted).contains(aid) <==> wanted.contains(aid) || exists|k: int|
            0 <= k < episodes.len() && (#[trigger] episodes[k]).aid == aid && aid > 0
                && episodes[k].published_at is None,
    decreases episodes.len(),
{
    if episodes.len() > 0 {
        let rest = episodes.drop_last();
        let n = episodes.len() - 1;
        lemma_wanted_in(rest, wanted, aid);
        assert(episodes[n] == episodes.last());
        if exists|k: int|
            0 <= k < rest.len() && (#[trigger] rest[k]).aid == aid && aid > 0
                && rest[k].published_at is None {
            let k = choose|k: int|
                0 <= k < rest.len() && (#[trigger] rest[k]).aid == aid && aid > 0
                    && rest[k].published_at is None;
            assert(episodes[k] == rest[k]);
        }
        if exists|k: int|
            0 <= k < episodes.len() && (#[trigger] episodes[k]).aid == aid && aid > 0
                && episodes[k].published_at is None {
            let k = choose|k: int|
                0 <= k < episodes.len() && (#[trigger] episodes[k]).aid == aid && aid > 0
                    && episodes[k].published_at is None;
            if k < n {
                assert(rest[k] == episodes[k]);
            }
        }
    }
}

/// The publish time is searched for of just those archives that some episode names without telling
/// it.
pub proof fn law_unknown_times_searched(sections: Seq<SectionView>, aid: i64)
    ensures
        wanted_archives(sections).contains(aid) <==> exists|i: int, k: int|
            0 <= i < sections.len() && 0 <= k < sections[i].episodes.len()
                && #[trigger] sections[i].episodes[k].aid == aid && aid > 0
                && sections[i].episodes[k].published_at is None,
    decreases sections.len(),
{
    if sections.len() > 0 {
        let rest = sections.drop_last();
        let n = sections.len() - 1;
        law_unknown_times_searched(rest, aid);
        lemma_wanted_in(sections.last().episodes, wanted_archives(rest), aid);
        assert(sections[n] == sections.last());
        if wanted_archives(rest).contains(aid) {
            let (i, k) = choose|i: int, k: int|
                0 <= i < rest.len() && 0 <= k < rest[i].episodes.len()
                    && #[trigger] rest[i].episodes[k].aid == aid && aid > 0
                    && rest[i].episodes[k].published_at is None;
            assert(sections[i].episodes[k].aid == aid);
        } else if wanted_archives(sections).contains(aid) {
            let last = sections[n].episodes;
            let k = choose|k: int|
                0 <= k < last.len() && (#[trigger] last[k]).aid == aid && aid > 0
                    && last[k].published_at is None;
            assert(sections[n].episodes[k].aid == aid);
        }
        if exists|i: int, k: int|
            0 <= i < sections.len() && 0 <= k < sections[i].episodes.len()
                && #[trigger] sections[i].episodes[k].aid == aid && aid > 0
                && sections[i].episodes[k].published_at is None {
            let (i, k) = choose|i: int, k: int|
                0 <= i < sections.len() && 0 <= k < sections[i].episodes.len()
                    && #[trigger] sections[i].episodes[k].aid == aid && aid > 0
                    && sections[i].episodes[k].published_at is None;
            if i < n {
                assert(rest[i].episodes[k].aid == aid);
            } else {
                assert(sections.last().episodes[k].aid == aid);
            }
        }
    }
}

/// A time that a page tells of an archive is the one that is found for it, the first that is told.
pub proof fn law_first_told_time_found(search: TimeSearch, item: JsonView, page: Seq<JsonView>)
    requires
        audit_aid(item) is Some,
        audit_time(item) is Some,
        search.wanted.contains(audit_aid(item)->0),
    ensures
        noted(search, seq![item] + page).found.dom().contains(audit_aid(item)->0),
        noted(search, seq![item] + page).found[audit_aid(item)->0] == audit_time(item)->0,
        !noted(search, seq![item] + page).wanted.contains(audit_aid(item)->0),
    decreases page.len(),
{
    let whole = seq![item] + page;
    if page.len() == 0 {
        assert(whole =~= seq![item]);
        assert(whole.drop_last() =~= Seq::<JsonView>::empty());
        assert(whole.last() == item);
        reveal_with_fuel(noted, 2);
    } else {
        assert(whole.drop_last() =~= seq![item] + page.drop_last());
        assert(whole.last() == page.last());
        law_first_told_time_found(search, item, page.drop_last());
    }
}

} // verus!
