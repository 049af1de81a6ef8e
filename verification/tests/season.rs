use std::collections::{HashMap, HashSet};

use bili_clip_flow::archive::{archives_without_time, next_page_needed, note_audit_page, page_total};
use bili_clip_flow::json::Json;
use bili_clip_flow::requests::{found_no_section, restore_body, restore_form};
use bili_clip_flow::restore::{
    addable_positions, after_failed_request, build_episode_sorts, created_season_id,
    is_episode_exists_error, is_rate_limited_error, retry_wait_ms, RestoreJob, RestorePhase,
    RestoreReply,
};
use bili_clip_flow::season::{
    add_backup, archive_aid_from_audit_item, archive_publish_time_from_audit_item,
    build_season_list_item, fill_section_episode_publish_times, find_backup, next_season_page,
    normalize_episode_sort_mode, remove_backup, season_page_params,
    sort_section_episodes_by_publish_time, SeasonBackup, SeasonEpisodeBackup, SeasonSectionBackup,
};

fn object(fields: Vec<(&str, Json)>) -> Json {
    Json::Object(fields.into_iter().map(|(k, v)| (k.to_string(), v)).collect())
}

fn test_season_episode(aid: i64, published_at: Option<i64>, sort: i64) -> SeasonEpisodeBackup {
    SeasonEpisodeBackup {
        episode_id: None,
        title: format!("episode-{}", aid),
        aid,
        cid: aid * 10,
        bvid: None,
        archive_title: None,
        video_title: None,
        sort,
        charging_pay: 0,
        member_first: 0,
        limited_free: false,
        published_at,
    }
}

fn test_season_section(episodes: Vec<SeasonEpisodeBackup>) -> SeasonSectionBackup {
    SeasonSectionBackup {
        section_id: 1,
        section_type: 0,
        title: "section".to_string(),
        order: 1,
        cover: String::new(),
        state: 0,
        part_state: 0,
        ep_count: episodes.len() as i64,
        episodes,
    }
}

fn test_backup(sections: Vec<SeasonSectionBackup>) -> SeasonBackup {
    let count: i64 = sections.iter().map(|s| s.episodes.len() as i64).sum();
    SeasonBackup {
        backup_id: "b".to_string(),
        source_season_id: 5,
        title: "season".to_string(),
        description: String::new(),
        cover: String::new(),
        season_price: 0,
        no_section: Some(0),
        section_id: 1,
        section_count: sections.len() as i64,
        episode_count: count,
        captured_episode_count: count,
        complete: true,
        sections,
        episodes: Vec::new(),
        created_at: "now".to_string(),
    }
}

#[test]
fn bilibili_season_restore_sorts_episodes_by_publish_time() {
    let episodes = vec![
        test_season_episode(3, Some(300), 1),
        test_season_episode(1, Some(100), 2),
        test_season_episode(2, Some(200), 3),
    ];
    let publish_times = HashMap::new();
    let mut asc_section = test_season_section(episodes.clone());
    let mut desc_section = test_season_section(episodes);

    sort_section_episodes_by_publish_time(&mut asc_section, &publish_times, "publish_asc");
    sort_section_episodes_by_publish_time(&mut desc_section, &publish_times, "publish_desc");

    assert_eq!(
        asc_section.episodes.iter().map(|item| item.aid).collect::<Vec<_>>(),
        vec![1, 2, 3]
    );
    assert_eq!(
        desc_section.episodes.iter().map(|item| item.aid).collect::<Vec<_>>(),
        vec![3, 2, 1]
    );
}

#[test]
fn bilibili_season_backup_extracts_archive_publish_time() {
    let item = object(vec![(
        "Archive",
        object(vec![("aid", Json::Int(1001)), ("pubdate", Json::Int(1784460000))]),
    )]);

    assert_eq!(archive_aid_from_audit_item(&item), Some(1001));
    assert_eq!(archive_publish_time_from_audit_item(&item), Some(1784460000));
}

#[test]
fn bilibili_season_backup_fills_publish_times_before_restore() {
    let mut sections = vec![test_season_section(vec![
        test_season_episode(10, None, 1),
        test_season_episode(20, Some(2000), 2),
        test_season_episode(30, None, 3),
    ])];
    let publish_times = HashMap::from([(10, 1000), (30, 3000)]);

    let filled_count = fill_section_episode_publish_times(&mut sections, &publish_times);

    assert_eq!(filled_count, 2);
    assert_eq!(sections[0].episodes[0].published_at, Some(1000));
    assert_eq!(sections[0].episodes[1].published_at, Some(2000));
    assert_eq!(sections[0].episodes[2].published_at, Some(3000));
}

#[test]
fn bilibili_season_restore_keeps_missing_publish_time_at_end() {
    let episodes = vec![
        test_season_episode(1, None, 1),
        test_season_episode(2, Some(200), 2),
        test_season_episode(3, Some(100), 3),
        test_season_episode(4, None, 4),
    ];
    let publish_times = HashMap::new();
    let mut section = test_season_section(episodes);

    let missing_count =
        sort_section_episodes_by_publish_time(&mut section, &publish_times, "publish_asc");

    assert_eq!(missing_count, 2);
    assert_eq!(
        section.episodes.iter().map(|item| item.aid).collect::<Vec<_>>(),
        vec![3, 2, 1, 4]
    );
}

#[test]
fn sort_modes_have_a_default() {
    assert_eq!(normalize_episode_sort_mode(Some("publish_asc")), "publish_asc");
    assert_eq!(normalize_episode_sort_mode(Some("publish_desc")), "publish_desc");
    assert_eq!(
        normalize_episode_sort_mode(Some("anything")),
        normalize_episode_sort_mode(None)
    );
}

#[test]
fn seasons_are_listed() {
    let raw = object(vec![(
        "season",
        object(vec![("id", Json::Int(9)), ("title", Json::Str("t".to_string()))]),
    )]);
    let item = build_season_list_item(&raw);
    assert_eq!(item.season_id, 9);
    assert_eq!(item.title, "t");
    assert_eq!(item.episode_count, 0);
}

#[test]
fn audit_pages_narrow_the_search() {
    let sections = vec![test_season_section(vec![
        test_season_episode(10, None, 1),
        test_season_episode(20, Some(2000), 2),
    ])];
    let mut wanted: HashSet<i64> = archives_without_time(&sections);
    assert_eq!(wanted, HashSet::from([10]));
    let page = vec![object(vec![(
        "Archive",
        object(vec![("aid", Json::Int(10)), ("pubdate", Json::Int(77))]),
    )])];
    let mut times = HashMap::new();
    assert!(next_page_needed(1, 500, false, &wanted));
    note_audit_page(&page, &mut wanted, &mut times);
    assert!(wanted.is_empty());
    assert_eq!(times.get(&10), Some(&77));
    assert!(!next_page_needed(1, 500, false, &wanted));
    assert_eq!(page_total(&object(vec![("page", object(vec![("count", Json::Int(3))]))])), 3);
}

#[test]
fn refusals_of_a_restore_are_told_apart() {
    assert!(is_rate_limited_error("code: 20111"));
    assert!(is_rate_limited_error("操作过于频繁"));
    assert!(is_episode_exists_error("code: 20080"));
    assert_eq!(retry_wait_ms(0, "code: 20111"), Some(2500));
    assert_eq!(retry_wait_ms(3, "code: 20111"), Some(5500));
    assert_eq!(retry_wait_ms(8, "code: 20111"), None);
    assert!(!is_rate_limited_error("plain"));
    assert!(!is_episode_exists_error("plain"));
    assert_eq!(retry_wait_ms(0, "plain"), None);
}

#[test]
fn created_ids_are_read() {
    assert_eq!(created_season_id(&Json::Int(12)).ok(), Some(12));
    assert!(created_season_id(&Json::Null).is_err());
}

#[test]
fn episodes_without_an_archive_are_not_added() {
    let section = test_season_section(vec![
        test_season_episode(10, None, 1),
        test_season_episode(0, None, 2),
        test_season_episode(30, None, 3),
    ]);
    assert_eq!(addable_positions(&section), vec![0, 2]);
    let added = vec![
        object(vec![("id", Json::Int(501)), ("aid", Json::Int(30)), ("cid", Json::Int(300))]),
        object(vec![("id", Json::Int(502)), ("aid", Json::Int(10)), ("cid", Json::Int(100))]),
    ];
    let sorts = build_episode_sorts(&section.episodes, &added);
    assert_eq!(sorts.len(), 2);
}

#[test]
fn a_restore_runs_to_its_end() {
    let backup = test_backup(vec![test_season_section(vec![
        test_season_episode(10, None, 1),
        test_season_episode(20, None, 2),
    ])]);
    let mut job = RestoreJob::new(&backup, "original");
    assert!(job.phase == RestorePhase::CreateSeason);
    job.on_reply(RestoreReply::Made(77));
    assert_eq!(job.new_season_id, 77);
    let mut steps = 0;
    let mut offered = Vec::new();
    while job.phase != RestorePhase::Done && job.phase != RestorePhase::Failed {
        offered.extend(job.episodes_to_add());
        let reply = match job.phase {
            RestorePhase::FindDefault | RestorePhase::CreateSection(_) => {
                RestoreReply::Made(100 + steps)
            }
            _ => RestoreReply::Accepted,
        };
        job.on_reply(reply);
        steps += 1;
        assert!(steps < 100);
    }
    assert!(job.phase == RestorePhase::Done);
    assert_eq!(job.added_episode_count, 2);
    assert_eq!(offered, vec![0, 1]);
}

#[test]
fn requests_of_a_restore_say_what_was_saved() {
    let mut section = test_season_section(vec![
        test_season_episode(10, None, 1),
        test_season_episode(20, None, 2),
    ]);
    section.title = "part".to_string();
    let mut backup = test_backup(vec![section]);
    backup.title = "t".to_string();
    backup.season_price = 7;
    let none = vec![];
    let mut job = RestoreJob::new(&backup, "original");
    let body = restore_body(&job, &backup, &none).expect("a body");
    assert_eq!(body.get_text("title"), Some("t".to_string()));
    assert_eq!(body.get_i64("season_price"), Some(7));
    assert_eq!(body.get_text("captcha_token"), Some("".to_string()));
    job.on_reply(RestoreReply::Made(77));
    assert!(restore_body(&job, &backup, &none).is_none());
    job.on_reply(RestoreReply::Made(5));
    let form = restore_form(&job);
    assert_eq!(form[0], ("season_id".to_string(), "77".to_string()));
    assert_eq!(form[1].0, "no_section");
    job.on_reply(RestoreReply::Accepted);
    assert_eq!(restore_form(&job), vec![("id".to_string(), "5".to_string())]);
    job.on_reply(RestoreReply::Accepted);
    let body = restore_body(&job, &backup, &none).expect("a body");
    assert_eq!(body.get_i64("seasonId"), Some(77));
    assert_eq!(body.get_text("title"), Some("part".to_string()));
    job.on_reply(RestoreReply::Made(901));
    let body = restore_body(&job, &backup, &none).expect("a body");
    assert_eq!(body.get("season").expect("a season").get_i64("id"), Some(77));
    let sorts = body.get_array("sorts").expect("an order");
    assert_eq!(sorts.len(), 1);
    assert_eq!((sorts[0].get_i64("id"), sorts[0].get_i64("sort")), (Some(901), Some(1)));
    job.on_reply(RestoreReply::Accepted);
    let body = restore_body(&job, &backup, &none).expect("a body");
    assert_eq!(body.get_i64("sectionId"), Some(901));
    let episodes = body.get_array("episodes").expect("episodes");
    let aids: Vec<Option<i64>> = episodes.iter().map(|item| item.get_i64("aid")).collect();
    assert_eq!(aids, vec![Some(10), Some(20)]);
    job.on_reply(RestoreReply::Accepted);
    let entry = |id: i64, aid: i64, cid: i64| {
        object(vec![("id", Json::Int(id)), ("aid", Json::Int(aid)), ("cid", Json::Int(cid))])
    };
    let cid = |k: usize| backup.sections[0].episodes[k].cid;
    let added = vec![entry(502, 20, cid(1)), entry(501, 10, cid(0))];
    let body = restore_body(&job, &backup, &added).expect("a body");
    assert_eq!(body.get("section").expect("a section").get_i64("id"), Some(901));
    let sorts = body.get_array("sorts").expect("an order");
    assert_eq!((sorts[0].get_i64("id"), sorts[0].get_i64("sort")), (Some(501), Some(1)));
    assert_eq!((sorts[1].get_i64("id"), sorts[1].get_i64("sort")), (Some(502), Some(2)));
    let detail = object(vec![("season", object(vec![("no_section", Json::Int(1))]))]);
    assert_eq!(found_no_section(&detail), Some(1));
    assert_eq!(found_no_section(&Json::Null), None);
}

#[test]
fn a_refused_season_fails_the_restore() {
    let backup = test_backup(vec![test_season_section(vec![test_season_episode(10, None, 1)])]);
    let mut job = RestoreJob::new(&backup, "original");
    job.on_reply(RestoreReply::Refused("no".to_string()));
    assert!(job.phase == RestorePhase::Failed);
    assert!(job.failure.is_some());
}

fn named_backup(id: &str, season: i64, complete: bool) -> SeasonBackup {
    let mut backup = test_backup(vec![]);
    backup.backup_id = id.to_string();
    backup.source_season_id = season;
    backup.complete = complete;
    backup
}

#[test]
fn backups_replace_older_ones_of_their_season() {
    let list = add_backup(vec![], named_backup("a", 1, true));
    let list = add_backup(list, named_backup("b", 2, true));
    let list = add_backup(list, named_backup("c", 1, false));
    let ids: Vec<&str> = list.iter().map(|backup| backup.backup_id.as_str()).collect();
    assert_eq!(ids, vec!["c", "b"]);
    assert_eq!(find_backup(&list, "b"), Ok(1));
    assert_eq!(find_backup(&list, "a"), Err("未找到备份".to_string()));
    assert_eq!(
        find_backup(&list, "c"),
        Err("该备份不完整，请重新备份后再恢复".to_string())
    );
    let list = remove_backup(list, "c").ok().expect("the rest");
    assert_eq!(list.len(), 1);
    assert_eq!(remove_backup(list, "c").err(), Some("未找到备份".to_string()));
}

#[test]
fn publish_times_are_filled_in_once() {
    let mut sections = vec![
        test_season_section(vec![test_season_episode(10, None, 1)]),
        test_season_section(vec![
            test_season_episode(20, Some(7), 1),
            test_season_episode(30, None, 2),
        ]),
    ];
    let times = HashMap::from([(10, 1000), (20, 2000)]);
    assert_eq!(fill_section_episode_publish_times(&mut sections, &times), 1);
    assert_eq!(fill_section_episode_publish_times(&mut sections, &times), 0);
    let seen: Vec<Option<i64>> =
        sections.iter().flat_map(|s| s.episodes.iter().map(|e| e.published_at)).collect();
    assert_eq!(seen, vec![Some(1000), Some(7), None]);
}

#[test]
fn refused_requests_are_sent_again_up_to_a_limit() {
    let limited = "code: 20111";
    for attempt in 0..8 {
        let step = after_failed_request(attempt, limited);
        assert_eq!(step.wait_ms, Some(2500 + attempt * 1000));
        assert_eq!(step.again, attempt < 7);
    }
    assert_eq!(after_failed_request(8, limited).wait_ms, None);
    let plain = after_failed_request(0, "plain");
    assert_eq!((plain.wait_ms, plain.again), (None, false));
}

#[test]
fn seasons_are_read_page_by_page() {
    let params = season_page_params(3);
    assert_eq!(params[0], ("pn".to_string(), "3".to_string()));
    assert_eq!(params[1], ("ps".to_string(), "30".to_string()));
    assert_eq!(params.len(), 6);
    assert_eq!(next_season_page(1, 30), Some(2));
    assert_eq!(next_season_page(1, 29), None);
    assert_eq!(next_season_page(50, 30), None);
}
