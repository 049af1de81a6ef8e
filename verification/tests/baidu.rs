use bili_clip_flow::baidu_config::{cli_config, cli_login, CliLogin};
use bili_clip_flow::baidu_cookie::{
    build_baidu_api_cookie_header, normalize_baidu_token, normalize_baidu_token_optional,
    parse_baidu_cookie, BaiduLoginCredential,
};
use bili_clip_flow::baidu_output::{
    append_command_warning, command_result, command_timeout_error, detect_baidu_download_failure,
    download_result, extract_between, is_baidu_not_found_error, lost_download_error,
    parse_baidu_ls_entries, parse_download_total_size, parse_meta_size, parse_progress_line,
    parse_who_output, summarize_baidu_command_args, summarize_command_output,
    summarize_command_output_pair, upload_timeout_error, BaiduRemoteEntry, CommandOutput,
    UploadWatch,
};
use bili_clip_flow::baidu_path::{
    join_baidu_path, last_name, normalize_baidu_path, parent_directory, rename_target,
    split_baidu_parent_and_name,
};
use bili_clip_flow::baidu_remote::{
    api_status_error, check_reply, entry_lookup, find_baidu_remote_entry, parse_remote_entries,
    parse_user_info, remote_dirs, rename_list, resolve_uploaded_baidu_remote_entry, BaiduApi,
    BaiduHttpUserInfo, EntryLookup,
};
use bili_clip_flow::baidu_sync::{
    account_summary, baidu_sync_settings, checked_login, credential_from_cookie,
    credential_from_tokens, download_parallelism, finished_login, is_baidu_busy_error, is_lost,
    live_request, lost_action, new_login, normalize_baidu_upload_policy, parse_date, queue_action,
    relogin_due, rename_wanted, renamed_entry, render_filename, settle, should_attempt_relogin,
    submission_request, task_page, unknown_login, validated_account, BaiduSyncRuntime,
    BaiduSyncTask, LostAction, QueueAction, SubmissionSync, SyncRequest, UploadEvent, UploadJob,
    UploadStep,
};
use bili_clip_flow::json::Json;

fn object(fields: Vec<(&str, Json)>) -> Json {
    Json::Object(fields.into_iter().map(|(k, v)| (k.to_string(), v)).collect())
}

fn text(s: &str) -> Json {
    Json::Str(s.to_string())
}

fn some(s: &str) -> Option<String> {
    Some(s.to_string())
}

fn credential() -> BaiduLoginCredential {
    BaiduLoginCredential {
        baidu_uid: "42".to_string(),
        login_type: "bduss".to_string(),
        cookie: None,
        bduss: some("token"),
        stoken: None,
        last_attempt_time: None,
        last_attempt_error: None,
    }
}

fn task() -> BaiduSyncTask {
    BaiduSyncTask {
        id: 7,
        source_type: "submission_merged".to_string(),
        source_id: some(" t1 "),
        baidu_uid: None,
        local_path: "/rec/a.mp4".to_string(),
        remote_dir: "/录播".to_string(),
        remote_name: "b.mp4".to_string(),
        retry_count: 0,
        policy: None,
    }
}

fn entry(name: &str, is_dir: bool, size: u64) -> BaiduRemoteEntry {
    BaiduRemoteEntry {
        name: name.to_string(),
        path: format!("/录播/{}", name),
        is_dir,
        size,
    }
}

#[test]
fn paths_are_normalized_and_joined() {
    assert_eq!(normalize_baidu_path(""), "/");
    assert_eq!(normalize_baidu_path(" a\\b/ "), "/a/b");
    assert_eq!(normalize_baidu_path("///"), "/");
    assert_eq!(join_baidu_path("/录播/", "/x/"), "/录播/x");
    assert_eq!(join_baidu_path("/", "x"), "/x");
    assert_eq!(join_baidu_path("/a", " "), "/a");
    assert_eq!(
        split_baidu_parent_and_name("/a/b/c"),
        ("/a/b".to_string(), "c".to_string())
    );
    assert_eq!(split_baidu_parent_and_name("/c"), ("/".to_string(), "c".to_string()));
    assert_eq!(split_baidu_parent_and_name("/"), ("/".to_string(), String::new()));
    assert_eq!(last_name("/a//b/"), "b");
    assert_eq!(last_name("/"), "");
    assert_eq!(parent_directory("/a/b"), "/a");
    assert_eq!(parent_directory("/a"), "/");
    assert_eq!(rename_target("/a/b", "c"), Ok("/a/c".to_string()));
    assert_eq!(rename_target("/", "c"), Err("无法重命名根目录".to_string()));
    assert_eq!(rename_target("/a", ""), Err("目录名称不能为空".to_string()));
}

#[test]
fn cookies_are_cleaned() {
    let parsed = parse_baidu_cookie("Cookie: BDUSS=abc; Path=/;\nSTOKEN=def; BAIDUID=x")
        .ok()
        .expect("a cookie");
    assert_eq!(parsed.header, "BDUSS=abc; STOKEN=def; BAIDUID=x");
    assert_eq!(parsed.bduss, some("abc"));
    assert_eq!(parsed.stoken, some("def"));
    assert_eq!(parse_baidu_cookie("  ").err(), some("Cookie 不能为空"));
    assert_eq!(parse_baidu_cookie("Path=/; Secure").err(), some("Cookie 无有效字段"));
    assert_eq!(parse_baidu_cookie("a=b").err(), some("Cookie 缺少 BDUSS"));
    assert_eq!(
        parse_baidu_cookie("BDUSS_BFESS=b").err(),
        some("Cookie 缺少 BDUSS，仅包含 BDUSS_BFESS")
    );
}

#[test]
fn tokens_are_cleaned() {
    assert_eq!(normalize_baidu_token(" abc ", "BDUSS"), Ok("abc".to_string()));
    assert_eq!(normalize_baidu_token("bduss=abc", "BDUSS"), Ok("abc".to_string()));
    assert_eq!(
        normalize_baidu_token("STOKEN=x; BDUSS=abc", "BDUSS"),
        Ok("abc".to_string())
    );
    assert_eq!(normalize_baidu_token("BDUSS=", "BDUSS"), Err("BDUSS 不能为空".to_string()));
    assert_eq!(normalize_baidu_token(" ", "STOKEN"), Err("STOKEN 不能为空".to_string()));
    assert_eq!(normalize_baidu_token_optional("  ", "STOKEN"), Ok(None));
    assert_eq!(normalize_baidu_token_optional("s", "STOKEN"), Ok(some("s")));
}

#[test]
fn request_cookies_are_minimal() {
    let mut c = credential();
    assert_eq!(build_baidu_api_cookie_header(&c), Ok("BDUSS=token".to_string()));
    c.stoken = some("st");
    assert_eq!(
        build_baidu_api_cookie_header(&c),
        Ok("BDUSS=token; STOKEN=st".to_string())
    );
    c.bduss = None;
    c.stoken = None;
    assert_eq!(
        build_baidu_api_cookie_header(&c),
        Err("Cookie 不能为空".to_string())
    );
    c.cookie = some("X=1; BDUSS=abc; STOKEN=def");
    assert_eq!(
        build_baidu_api_cookie_header(&c),
        Ok("BDUSS=abc; STOKEN=def".to_string())
    );
}

#[test]
fn listings_are_read() {
    let output = "当前目录: /录播\n----\n\u{1b}[31m 0  -  2024-01-01  sub/\u{1b}[0m\n  1  10MB  2024-01-01 10:00:00  a b.mp4\n文件总数: 1\n";
    let entries = parse_baidu_ls_entries(output, "/录播");
    assert_eq!(entries.len(), 2);
    assert_eq!(entries[0].name, "sub");
    assert!(entries[0].is_dir);
    assert_eq!(entries[0].path, "/录播/sub");
    assert_eq!(entries[1].name, "a b.mp4");
    assert!(!entries[1].is_dir);
    let table = "| # | 文件(目录) |\n| 0 | x/ |\n| 1 | y.mp4 |";
    let entries = parse_baidu_ls_entries(table, "/");
    let names: Vec<&str> = entries.iter().map(|e| e.name.as_str()).collect();
    assert_eq!(names, vec!["x", "y.mp4"]);
    assert_eq!(remote_dirs(&entries).len(), 1);
}

#[test]
fn output_is_summarized() {
    assert_eq!(summarize_command_output(" \n\n", 3, 10), "无输出");
    assert_eq!(summarize_command_output("a\nb\n c \n", 2, 100), "b | c");
    assert_eq!(summarize_command_output("abcdef", 2, 3), "abc...");
    assert_eq!(summarize_command_output_pair("a", "b"), "stdout=a | stderr=b");
    assert_eq!(summarize_command_output_pair("", "b"), "stderr=b");
    assert_eq!(summarize_command_output_pair("a", ""), "a");
    assert_eq!(append_command_warning("a", "w"), "a\nw");
    assert_eq!(append_command_warning("a\n", "w"), "a\nw");
    assert_eq!(append_command_warning("", "w"), "w");
}

#[test]
fn commands_are_judged() {
    assert!(command_result(true, "ok".to_string(), String::new()).is_ok());
    assert_eq!(
        command_result(true, " 文件上传失败 ".to_string(), String::new()).err(),
        some("上传失败: 文件上传失败")
    );
    assert_eq!(
        command_result(false, "out".to_string(), "err".to_string()).err(),
        some("BaiduPCS-Go 执行失败: stdout=out | stderr=err")
    );
    let failed = CommandOutput { stdout: "以下文件下载失败: x".to_string(), stderr: String::new() };
    assert_eq!(detect_baidu_download_failure(&failed), some("以下文件下载失败: x"));
    assert_eq!(
        download_result(true, failed.stdout.clone(), String::new()).err(),
        some("BaiduPCS-Go 下载失败: 以下文件下载失败: x")
    );
    assert!(download_result(true, "done".to_string(), String::new()).is_ok());
    assert!(download_result(false, "done".to_string(), String::new()).is_err());
    let lost = lost_download_error("/r", "/l", "empty", 5, true, &failed);
    assert_eq!(
        lost,
        "BaiduPCS-Go 未解析出可下载文件: remote=/r expected_size=5 command=以下文件下载失败: x"
    );
}

#[test]
fn login_data_stays_out_of_messages() {
    let args: Vec<String> =
        ["login", "-bduss=secret", "-stoken=s", "-cookies=c", "x"].iter().map(|s| s.to_string()).collect();
    let shown = summarize_baidu_command_args(&args);
    assert_eq!(
        shown,
        "login -bduss=<redacted> -stoken=<redacted> -cookies=<redacted> x"
    );
    let other: Vec<String> =
        ["login", "-bduss=other", "-stoken=t", "-cookies=d", "x"].iter().map(|s| s.to_string()).collect();
    assert_eq!(summarize_baidu_command_args(&other), shown);
    let plain = vec!["x".to_string()];
    assert_eq!(
        command_timeout_error(20, &plain, " out ", " "),
        "BaiduPCS-Go 执行超时(20s): x | out"
    );
    assert_eq!(
        upload_timeout_error("1800秒无进度输出", &plain, "", ""),
        "BaiduPCS-Go 上传超时: 1800秒无进度输出 | x | 无输出"
    );
}

#[test]
fn uploads_are_watched() {
    let second = 1_000_000_000u64;
    let mut watch = UploadWatch::new(0);
    assert_eq!(watch.on_output(b"ab\ncd", second), vec![b"ab".to_vec()]);
    assert_eq!(watch.on_output(b"e\r\n\n", 2 * second), vec![b"cde".to_vec()]);
    assert_eq!(watch.overdue(2 * second + 1799 * second), None);
    assert_eq!(watch.overdue(2 * second + 1800 * second), some("1800秒无进度输出"));
    assert_eq!(watch.overdue(43_200 * second), some("总时长超过43200秒"));
    assert!(watch.on_output(b"rest", 3 * second).is_empty());
    assert_eq!(watch.finish(), Some(b"rest".to_vec()));
    assert_eq!(UploadWatch::new(0).finish(), None);
}

#[test]
fn reads_of_an_upload_may_be_cut_anywhere() {
    let bytes = b"one\rtwo\n\nthree\nfour";
    let mut whole = UploadWatch::new(0);
    let expected = whole.on_output(bytes, 1);
    let mut piecewise = UploadWatch::new(0);
    let mut lines = Vec::new();
    for byte in bytes {
        lines.extend(piecewise.on_output(&[*byte], 1));
    }
    assert_eq!(lines, expected);
    assert_eq!(piecewise.pending, whole.pending);
}

#[test]
fn sizes_are_read() {
    let (sent, total) = parse_progress_line("[1] ↑ 1.50MB/3GB 2MB/s in 3s").expect("progress");
    assert_eq!((sent.digits.as_str(), sent.factor), ("1.50", 1_048_576));
    assert_eq!((total.digits.as_str(), total.factor), ("3", 1_073_741_824));
    assert!(parse_progress_line("no arrow 1MB/2MB").is_none());
    assert!(parse_progress_line("↑ 1XB/2MB").is_none());
    let size = parse_download_total_size("x\n数据总量: 12.5KB done").expect("a size");
    assert_eq!((size.digits.as_str(), size.factor), ("12.5", 1024));
    assert!(parse_download_total_size("nothing").is_none());
    assert_eq!(parse_meta_size("文件大小 1234, 1.2KB\n"), Some(1234));
    assert_eq!(parse_meta_size("其他 1"), None);
}

#[test]
fn login_state_is_read() {
    assert_eq!(parse_who_output("请先登录"), (false, None, None));
    assert_eq!(parse_who_output("uid: 0, 用户名: x, "), (false, None, None));
    assert_eq!(
        parse_who_output("当前帐号 uid: 12, 用户名: 名, 性别"),
        (true, some("12"), some("名"))
    );
    assert_eq!(extract_between("a<b>c", "<", ">"), some("b"));
    assert_eq!(extract_between("a<>c", "<", ">"), None);
    assert!(is_baidu_not_found_error("File NOT FOUND"));
    assert!(is_baidu_not_found_error("文件不存在"));
    assert!(!is_baidu_not_found_error("file"));
    assert!(is_baidu_busy_error("50052"));
}

#[test]
fn replies_of_the_storage_are_read() {
    let reply = object(vec![
        ("errno", Json::Int(0)),
        (
            "list",
            Json::Array(vec![
                object(vec![
                    ("server_filename", text(" a.mp4 ")),
                    ("path", text("/x/a.mp4")),
                    ("isdir", Json::Int(0)),
                    ("size", Json::Int(9)),
                ]),
                object(vec![("server_filename", text("  "))]),
                object(vec![("server_filename", text("d")), ("isdir", Json::Int(1))]),
            ]),
        ),
    ]);
    let entries = parse_remote_entries(&reply, "", "/x").ok().expect("entries");
    assert_eq!(entries.len(), 2);
    assert_eq!((entries[0].name.as_str(), entries[0].size), ("a.mp4", 9));
    assert_eq!(entries[1].path, "/x/d");
    assert!(entries[1].is_dir);
    assert_eq!(find_baidu_remote_entry(&entries, "/x/a.mp4"), Some(0));
    assert_eq!(find_baidu_remote_entry(&entries, "/x/zzz"), None);
    let refused = object(vec![("errno", Json::Int(-6))]);
    assert_eq!(
        parse_remote_entries(&refused, "body", "/x").err(),
        some("百度网盘目录读取失败: errno=-6 body")
    );
    assert_eq!(
        check_reply(&BaiduApi::Rename, &object(vec![]), "b").err(),
        some("百度网盘重命名目录失败: errno=-1 b")
    );
    assert_eq!(
        api_status_error(&BaiduApi::Create, 500, "b"),
        "请求百度网盘创建目录失败: HTTP 500 b"
    );
    let user = object(vec![("errno", Json::Int(0)), ("uk", Json::Int(12)), ("baidu_name", text(" n "))]);
    let info = parse_user_info(&user, "").ok().expect("a user");
    assert_eq!((info.uid.as_str(), info.username), ("12", some("n")));
    let nobody = object(vec![("errno", Json::Int(0)), ("uk", text(" "))]);
    assert_eq!(parse_user_info(&nobody, "b").err(), some("百度网盘用户信息缺少 uk: b"));
    assert!(matches!(entry_lookup("/"), EntryLookup::Root));
    assert!(matches!(entry_lookup("/a/b"), EntryLookup::In(dir) if dir == "/a"));
}

#[test]
fn uploads_are_found_again() {
    let entries = vec![entry("b.mp4", true, 10), entry("c.mp4", false, 10), entry("b.mp4", false, 10)];
    assert_eq!(resolve_uploaded_baidu_remote_entry(&entries, "b.mp4", "", 10), Some(2));
    assert_eq!(resolve_uploaded_baidu_remote_entry(&entries, "x.mp4", "c.mp4", 10), Some(1));
    assert_eq!(resolve_uploaded_baidu_remote_entry(&entries, "x.mp4", "y", 10), None);
    assert_eq!(resolve_uploaded_baidu_remote_entry(&entries, "b.mp4", "", 11), None);
    let one = vec![entry("d", false, 5), entry("e", false, 6)];
    assert_eq!(resolve_uploaded_baidu_remote_entry(&one, "x", "y", 6), Some(1));
}

#[test]
fn settings_have_defaults() {
    let s = baidu_sync_settings(None, None, None, None, None);
    assert!(s.enabled);
    assert_eq!(
        (s.target_path.as_str(), s.policy.as_str(), s.retry, s.concurrency),
        ("/录播", "overwrite", 2, 3)
    );
    let s = baidu_sync_settings(some("x"), some("/y"), some("skip"), some("5"), some("-1"));
    assert_eq!((s.retry, s.concurrency), (5, 1));
    assert_eq!(download_parallelism(&some("1000"), 20), 100);
    assert_eq!(download_parallelism(&some("?"), 20), 20);
    assert_eq!(task_page(3, 50), (50, 100));
    assert_eq!(task_page(-3, 1000), (200, 0));
}

#[test]
fn running_tasks_are_bounded() {
    let mut runtime = BaiduSyncRuntime::new();
    let mut launched = 0;
    let mut id = 0;
    while runtime.has_slot(launched, 3) {
        runtime.insert(id);
        id += 1;
        launched += 1;
    }
    assert_eq!(runtime.active(), vec![0, 1, 2]);
    assert_eq!(runtime.reconcile(&vec![Some(true), Some(false), None]), vec![1]);
    assert_eq!(runtime.active(), vec![0, 2]);
    runtime.remove(0);
    runtime.remove(9);
    runtime.insert(2);
    assert_eq!(runtime.active(), vec![2]);
}

#[test]
fn submissions_are_queued() {
    let mut sync = SubmissionSync {
        title: "t".to_string(),
        enabled: true,
        path: None,
        filename: some("  "),
        baidu_uid: None,
    };
    match submission_request(&sync, &some("/m/x.mp4"), &None, &some("x.mp4"), "/录播") {
        SyncRequest::Copy(t) => {
            assert_eq!(t.local_path, "/m/x.mp4");
            assert_eq!(t.remote_dir, "/录播");
            assert_eq!(t.raw_name, "x.mp4");
        }
        _ => panic!("not queued"),
    }
    sync.filename = some(" name.mp4 ");
    assert!(matches!(
        submission_request(&sync, &some("/m/x.mp4"), &None, &None, "/录播"),
        SyncRequest::Copy(t) if t.raw_name == "name.mp4"
    ));
    assert!(matches!(
        submission_request(&sync, &some(" "), &None, &None, "/录播"),
        SyncRequest::NoFile
    ));
    sync.enabled = false;
    assert!(matches!(
        submission_request(&sync, &some("/m/x.mp4"), &None, &None, "/录播"),
        SyncRequest::Disabled
    ));
}

#[test]
fn a_source_gets_no_second_task() {
    let row = |id: i64, state: &str| (id, state.to_string());
    assert!(matches!(queue_action(&vec![]), QueueAction::Insert));
    assert!(matches!(queue_action(&vec![row(1, "SUCCESS")]), QueueAction::Insert));
    assert!(matches!(
        queue_action(&vec![row(1, "FAILED"), row(2, "PENDING"), row(3, "PENDING")]),
        QueueAction::Refresh(3)
    ));
    assert!(matches!(
        queue_action(&vec![row(5, "PENDING"), row(2, "UPLOADING")]),
        QueueAction::Leave(2)
    ));
    assert!(matches!(queue_action(&vec![row(4, "CANCELLED")]), QueueAction::Restart(4)));
}

#[test]
fn recordings_are_queued_by_their_date() {
    match live_request("/r/a.mp4", &some("a.mp4"), "2024-05-06T23:30:00+08:00", "x", true, &some("/p/")) {
        SyncRequest::Copy(t) => {
            assert_eq!(t.remote_dir, "/p/20240506");
            assert_eq!(t.raw_name, "a.mp4");
        }
        _ => panic!("not queued"),
    }
    assert!(matches!(
        live_request("/r/a.mp4", &None, "?", "20240101", true, &some("/p")),
        SyncRequest::Copy(t) if t.remote_dir == "/p/20240101" && t.raw_name == "record.mp4"
    ));
    assert!(matches!(live_request(" ", &None, "?", "x", true, &some("/p")), SyncRequest::NoFile));
    assert!(matches!(live_request("/r", &None, "?", "x", false, &some("/p")), SyncRequest::Disabled));
    assert!(matches!(live_request("/r", &None, "?", "x", true, &some(" ")), SyncRequest::NoPath));
    assert_eq!(parse_date("2024-05-06T23:30:00+08:00"), some("20240506"));
    assert_eq!(parse_date("yesterday"), None);
    assert_eq!(
        render_filename(&some("{{ title }}-{{ date }}-P{{ index }}"), "t", "d", Some(3), "f"),
        "t-d-P3"
    );
    assert_eq!(render_filename(&None, "t", "d", None, "f"), "f");
    assert_eq!(render_filename(&some("{{ title }}"), " ", "d", None, "f"), "f");
}

#[test]
fn an_upload_falls_back_and_is_tried_again() {
    let settings = baidu_sync_settings(None, None, some("bad"), some("1"), None);
    let (mut job, step) = UploadJob::new(task(), &settings, true);
    match step {
        UploadStep::Upload(args) => assert_eq!(
            args,
            vec!["upload", "-policy=overwrite", "-p=4", "-l=1", "/rec/a.mp4", "/录播"]
        ),
        _ => panic!("no upload"),
    }
    match job.next(&UploadEvent::Uploaded(some("文件上传失败"))) {
        UploadStep::Upload(args) => assert_eq!(
            args,
            vec!["upload", "-policy=overwrite", "-p=1", "-l=1", "--norapid", "/rec/a.mp4", "/录播"]
        ),
        _ => panic!("no fallback"),
    }
    assert!(matches!(
        job.next(&UploadEvent::Uploaded(some("文件上传失败"))),
        UploadStep::Again(1, message) if message == "文件上传失败"
    ));
    assert!(matches!(job.next(&UploadEvent::Uploaded(None)), UploadStep::Locate));
    assert!(matches!(
        job.next(&UploadEvent::Located(false, "a.mp4".to_string(), 9)),
        UploadStep::Again(1, message)
            if message == "上传后未找到远程文件 dir=/录播 expected=b.mp4 local_name=a.mp4 size=9"
    ));
    assert!(matches!(job.next(&UploadEvent::Located(true, String::new(), 0)), UploadStep::Settle));
    assert!(matches!(job.next(&UploadEvent::Settled(None)), UploadStep::Done));
    let mut tried = task();
    tried.retry_count = 1;
    let (mut job, _) = UploadJob::new(tried, &settings, true);
    assert!(matches!(job.next(&UploadEvent::Settled(some("e"))), UploadStep::Failed(m) if m == "e"));
    let (_, step) = UploadJob::new(task(), &settings, false);
    assert!(matches!(step, UploadStep::Failed(m) if m == "本地同步源文件不存在: /rec/a.mp4"));
    assert_eq!(normalize_baidu_upload_policy(&some(" rsync ")), some("rsync"));
    assert_eq!(normalize_baidu_upload_policy(&some("x")), None);
}

#[test]
fn tasks_are_settled() {
    let t = task();
    assert_eq!(rename_wanted(&t, &entry("x", false, 1)), some("/录播/b.mp4"));
    assert_eq!(rename_wanted(&t, &entry("b.mp4", false, 1)), None);
    let renamed = renamed_entry(&t, entry("x", false, 1));
    assert_eq!((renamed.name.as_str(), renamed.path.as_str()), ("b.mp4", "/录播/b.mp4"));
    let plan = settle(&t, &entry("x", false, 1), 3).ok().expect("settled");
    assert_eq!(plan.rebind, some("x"));
    assert_eq!(plan.submission, some("t1"));
    assert_eq!(settle(&t, &entry("x", false, 1), 0).err(), some("上传后文件大小为0"));
}

#[test]
fn lost_tasks_are_recovered() {
    assert!(is_lost("2024-01-01T00:00:00Z", None));
    let written = 1_704_067_200; // the same moment
    assert!(!is_lost("2024-01-01T00:00:00Z", Some((written + 2099, 0))));
    assert!(is_lost("2024-01-01T00:00:00Z", Some((written + 2100, 0))));
    assert!(is_lost("no time", Some((written, 0))));
    assert!(matches!(lost_action(&task(), true, false), LostAction::Settle));
    assert!(matches!(lost_action(&task(), false, true), LostAction::Wait));
    assert!(matches!(
        lost_action(&task(), false, false),
        LostAction::Fail(m) if m == "本地同步源文件已删除，无法恢复同步: /rec/a.mp4"
    ));
}

#[test]
fn logins_are_noted() {
    let previous = unknown_login(&some("5"));
    assert_eq!(previous.status, "LOGGED_OUT");
    let told = BaiduHttpUserInfo { uid: "9".to_string(), username: some("n") };
    let mut c = credential();
    assert_eq!(validated_account(&c, &None, told).uid, "42");
    c.baidu_uid = " ".to_string();
    let told = BaiduHttpUserInfo { uid: "9".to_string(), username: some("n") };
    let account = validated_account(&c, &some(" 8 "), told);
    assert_eq!(account.uid, "8");
    let info = checked_login(&previous, &some("5"), true, &Some(account), "now");
    assert_eq!((info.status.as_str(), info.uid, info.username), ("LOGGED_IN", some("8"), some("n")));
    let out = checked_login(&previous, &some("6"), true, &None, "now");
    assert_eq!((out.status.as_str(), out.uid), ("LOGGED_OUT", some("5")));
    let none = checked_login(&previous, &some("6"), false, &None, "now");
    assert_eq!(none.uid, some("6"));
    let summary = account_summary("5", &previous, &some("5"));
    assert!(summary.is_active);
    let info = new_login(&BaiduHttpUserInfo { uid: "9".to_string(), username: None }, "bduss", "now");
    let (info, c) = finished_login(info, "cookie", c, "later");
    assert_eq!(info.login_type, some("cookie"));
    assert_eq!(info.login_time, some("now"));
    assert_eq!(c.baidu_uid, "9");
}

#[test]
fn logins_are_not_tried_too_often() {
    let mut c = credential();
    assert!(should_attempt_relogin(&c, "2024-01-01T00:10:00Z"));
    c.last_attempt_time = some("2024-01-01T00:00:00Z");
    assert!(should_attempt_relogin(&c, "2024-01-01T00:10:00Z"));
    assert!(!should_attempt_relogin(&c, "2024-01-01T00:09:59Z"));
    c.last_attempt_time = some("?");
    assert!(should_attempt_relogin(&c, "2024-01-01T00:00:01Z"));
    assert!(relogin_due(600));
    assert!(!relogin_due(599));
}

#[test]
fn pasted_logins_are_read() {
    let c = credential_from_cookie("BDUSS=a; STOKEN=b").ok().expect("login data");
    assert_eq!((c.bduss, c.stoken, c.cookie), (some("a"), some("b"), some("BDUSS=a; STOKEN=b")));
    assert!(credential_from_cookie("a=b").is_err());
    let c = credential_from_tokens("BDUSS=a", &some(" ")).ok().expect("login data");
    assert_eq!((c.bduss, c.stoken, c.cookie), (some("a"), None, None));
    assert_eq!(credential_from_tokens(" ", &None).err(), some("BDUSS 不能为空"));
}

#[test]
fn the_client_is_configured() {
    let login = cli_login(&credential()).ok().expect("a login");
    assert_eq!((login.uid.as_str(), login.bduss.as_str(), login.stoken.as_str()), ("42", "token", ""));
    let mut c = credential();
    c.baidu_uid = " ".to_string();
    assert_eq!(cli_login(&c).err(), some("缺少网盘 UID"));
    c = credential();
    c.bduss = None;
    assert_eq!(cli_login(&c).err(), some("缺少网盘 BDUSS"));
    c.stoken = some("STOKEN=");
    assert_eq!(cli_login(&c).err(), some("缺少网盘 BDUSS"));
    c.bduss = some("token");
    assert_eq!(cli_login(&c).err(), normalize_baidu_token_optional("STOKEN=", "STOKEN").err());
    assert!(cli_login(&c).is_err());

    let root = object(vec![
        ("appid", Json::Int(1)),
        (
            "baidu_user_list",
            Json::Array(vec![
                object(vec![("uid", Json::Int(42)), ("name", text("n"))]),
                object(vec![("uid", Json::Int(7)), ("bduss", text("token"))]),
                object(vec![("name", text("nobody"))]),
                object(vec![("uid", text("8")), ("bduss", text("other"))]),
            ]),
        ),
    ]);
    let config = cli_config(root, &login, &some("BDUSS=token; X=1"), "/down")
        .ok()
        .expect("a configuration");
    assert_eq!(config.get_i64("baidu_active_uid"), Some(42));
    assert_eq!(config.get_i64("appid"), Some(1));
    assert_eq!(config.get_i64("max_parallel"), Some(3));
    assert_eq!(config.get_text("savedir"), some("/down"));
    let users = config.get_array("baidu_user_list").expect("users");
    assert_eq!(users.len(), 2);
    assert_eq!(users[0].get_text("bduss"), some("token"));
    assert_eq!(users[0].get_text("cookies"), some("BDUSS=token; X=1"));
    assert_eq!(users[0].get_text("name"), some("n"));
    assert_eq!(users[1].get_text("uid"), some("8"));

    let fresh = CliLogin { uid: "u".to_string(), bduss: "b".to_string(), stoken: "s".to_string() };
    let config = cli_config(Json::Null, &fresh, &None, "/d").ok().expect("a configuration");
    assert_eq!(config.get_text("baidu_active_uid"), some("u"));
    assert_eq!(config.get_array("baidu_user_list").map(|u| u.len()), Some(1));
    assert!(cli_config(Json::Null, &fresh, &some("a=b"), "/d").is_err());
}

#[test]
fn parents_and_names_are_joined_again() {
    for path in ["/a/b c/d", "/x", "\\u\\v\\", "/"] {
        let (parent, name) = split_baidu_parent_and_name(path);
        assert_eq!(join_baidu_path(&parent, &name), normalize_baidu_path(path));
    }
}

#[test]
fn users_are_told_apart_by_the_text_of_their_uid() {
    let login = CliLogin { uid: "1.5".to_string(), bduss: "t".to_string(), stoken: String::new() };
    let user = |uid: Json| object(vec![("uid", uid), ("name", text("n"))]);
    let root = object(vec![(
        "baidu_user_list",
        Json::Array(vec![
            user(Json::Array(vec![Json::Int(1), Json::Bool(true)])),
            user(text("")),
            user(Json::Real("1.5".to_string())),
            user(text("1.5")),
        ]),
    )]);
    let config = cli_config(root, &login, &None, "/d").ok().expect("a configuration");
    let users = config.get_array("baidu_user_list").expect("users");
    assert_eq!(users.len(), 3);
    assert_eq!(users[0].get_text("bduss"), None);
    assert_eq!(users[1].get_text("bduss"), some("t"));
    assert_eq!(users[2].get_text("bduss"), None);
    let odd = CliLogin { uid: "[1,true]".to_string(), ..login };
    let root = object(vec![(
        "baidu_user_list",
        Json::Array(vec![user(Json::Array(vec![Json::Int(1), Json::Bool(true)]))]),
    )]);
    let config = cli_config(root, &odd, &None, "/d").ok().expect("a configuration");
    assert_eq!(config.get_array("baidu_user_list").map(|u| u.len()), Some(1));
}

#[test]
fn renames_are_asked_for_as_json() {
    assert_eq!(
        rename_list("a\\b/", "x\"y"),
        "[{\"newname\":\"x\\\"y\",\"path\":\"/a/b\"}]"
    );
}
