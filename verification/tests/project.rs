use bili_clip_flow::json::Json;
use bili_clip_flow::package::{
    collect_used_image_entries, image_references, rewrite_editor_state_for_export, value_string,
    ImagePackageEntry,
};
use bili_clip_flow::project::{
    extension_from_path, file_name_from_any_path, next_revision, normalized_path_key,
    normalized_project_name, project_path_from_package, project_time_label, settled_name,
    supported_image, validate_package_path, validated_project_id,
};
use bili_clip_flow::unpack::{
    absolutize_package_path, check_pictures, export_source, export_target, output_package_path,
    package_assets, rewrite_editor_state_for_import, source_package_path, validate_package_header,
    with_package_paths, PackageFile, PackagePlaces, PackedFile, VideoMaskPackageAsset,
    VideoMaskPackageManifest, VideoMaskPackageProjectData, VideoMaskPackageProjectMeta,
};

fn some(s: &str) -> Option<String> {
    Some(s.to_string())
}

fn text(s: &str) -> Json {
    Json::Str(s.to_string())
}

fn object(fields: Vec<(&str, Json)>) -> Json {
    Json::Object(fields.into_iter().map(|(k, v)| (k.to_string(), v)).collect())
}

fn float(value: f64) -> Json {
    Json::Real(format!("{:?}", value))
}

#[test]
fn validates_project_ids_and_image_extensions() {
    let id = "6f2d1e3c-4b5a-4978-8a6b-1c2d3e4f5a6b".to_string();
    assert_eq!(validated_project_id(&id).expect("valid UUID"), id);
    assert!(validated_project_id("../invalid").is_err());
    assert!(supported_image("mask.PNG", false));
    assert!(!supported_image("mask.svg", false));
}

#[test]
fn project_ids_take_their_usual_form() {
    assert_eq!(
        validated_project_id(" 6F2D1E3C4B5A49788A6B1C2D3E4F5A6B "),
        Ok("6f2d1e3c-4b5a-4978-8a6b-1c2d3e4f5a6b".to_string())
    );
    assert_eq!(validated_project_id("x"), Err("项目ID无效".to_string()));
}

#[test]
fn package_paths_reject_absolute_and_traversal_entries() {
    for backslash in [false, true] {
        assert!(validate_package_path("assets/source/source.mp4", backslash).is_ok());
        assert!(validate_package_path("../source.mp4", backslash).is_err());
        assert!(validate_package_path("assets/../source.mp4", backslash).is_err());
        assert!(validate_package_path("/tmp/source.mp4", backslash).is_err());
        assert!(validate_package_path("C:/tmp/source.mp4", backslash).is_err());
        assert!(validate_package_path("assets\\source\\source.mp4", backslash).is_err());
    }
}

#[test]
fn package_paths_are_refused_for_a_reason() {
    for backslash in [false, true] {
        let refused = |path: &str| validate_package_path(path, backslash).err();
        assert_eq!(refused(" "), Some("项目包内路径不能为空".to_string()));
        assert_eq!(refused("a\\b"), Some("项目包内路径必须使用 / 分隔: a\\b".to_string()));
        assert_eq!(
            refused("http://x"),
            Some("项目包内路径不能包含盘符或协议: http://x".to_string())
        );
        assert_eq!(refused("./a"), Some("项目包内路径不安全: ./a".to_string()));
        assert_eq!(refused("a/ /b"), Some("项目包内路径不安全: a/ /b".to_string()));
        assert_eq!(refused("a/./b//c/"), None);
    }
}

#[test]
fn a_leading_slash_is_refused_on_every_system() {
    let refused = |path: &str, backslash: bool| validate_package_path(path, backslash).err();
    let absolute = |path: &str| Some(format!("项目包内路径不能是绝对路径: {}", path));
    let odd = |path: &str| Some(format!("项目包内路径不安全: {}", path));
    for path in ["/a", "/", "//", "//a", "//a/", "///a/b", "//a/b", "//./a", "//a/b/c"] {
        assert_eq!(refused(path, false), absolute(path));
    }
    for path in ["/a", "/", "//", "//a", "//a/", "///a/b"] {
        assert_eq!(refused(path, true), odd(path));
    }
    for path in ["//a/b", "//./a", "//a/b/c"] {
        assert_eq!(refused(path, true), absolute(path));
    }
}

#[test]
fn project_names_are_bounded() {
    assert_eq!(normalized_project_name(&some(" n "), "x"), "n");
    assert_eq!(normalized_project_name(&None, "2024-01-01 10:00"), "未命名项目 2024-01-01 10:00");
    assert_eq!(normalized_project_name(&some(&"字".repeat(90)), "x"), "字".repeat(80));
    assert_eq!(project_time_label(1_704_067_200, 0), some("2024-01-01 00:00"));
    assert_eq!(next_revision(4), 5);
    assert_eq!(next_revision(i64::MAX), i64::MAX);
}

#[test]
fn file_names_are_taken_from_paths() {
    assert_eq!(file_name_from_any_path("C:\\a\\b.png", "f"), "b.png");
    assert_eq!(file_name_from_any_path("/a/b/ ", "f"), "b");
    assert_eq!(file_name_from_any_path(" ", "f"), "f");
    assert_eq!(settled_name(" ", "f"), "f");
    assert_eq!(settled_name("n", "f"), "n");
    assert_eq!(normalized_path_key(" a\\b "), "a/b");
    assert_eq!(extension_from_path("/a.b/c.MP4", "x", false), "mp4");
    assert_eq!(extension_from_path("/a.b/c", "x", false), "x");
    assert_eq!(extension_from_path("/a/.hidden", "x", false), "x");
    assert_eq!(extension_from_path("a.m-4", "x", false), "x");
    assert_eq!(extension_from_path("a\\.png", "x", false), "png");
    assert_eq!(extension_from_path("a\\.png", "x", true), "x");
}

#[test]
fn export_state_keeps_only_timeline_referenced_resources() {
    let state = object(vec![
        ("sourcePath", text("/old/source.mp4")),
        ("targetPath", text("/old/output.mp4")),
        (
            "resources",
            Json::Array(vec![
                object(vec![
                    ("id", text("r-used")),
                    ("path", text("/old/mask-used.png")),
                    ("previewPath", text("/old/cache-used.png")),
                    ("name", text("使用中.png")),
                    ("imageSrc", text("volatile")),
                ]),
                object(vec![
                    ("id", text("r-unused")),
                    ("path", text("/old/mask-unused.png")),
                    ("previewPath", text("/old/cache-unused.png")),
                    ("name", text("未使用.png")),
                ]),
            ]),
        ),
        (
            "segments",
            Json::Array(vec![object(vec![
                ("id", text("s1")),
                ("imagePath", text("/old/mask-used.png")),
                ("imagePreviewPath", text("/old/cache-used.png")),
                ("startTime", float(1.0)),
                ("endTime", float(2.0)),
                ("imageSrc", text("volatile")),
            ])]),
        ),
    ]);
    let images = vec![ImagePackageEntry {
        original_path: "/old/mask-used.png".to_string(),
        package_path: "assets/masks/mask-001.png".to_string(),
        original_name: "使用中.png".to_string(),
        resource_id: Some("r-used".to_string()),
        segment_ids: vec!["s1".to_string()],
        size_bytes: 10,
    }];
    let exported = rewrite_editor_state_for_export(
        state,
        "assets/source/source.mp4",
        "assets/output/output.mp4",
        &images,
    );
    assert_eq!(
        value_string(&exported, "sourcePath").as_deref(),
        Some("assets/source/source.mp4")
    );
    assert_eq!(
        value_string(&exported, "targetPath").as_deref(),
        Some("assets/output/output.mp4")
    );
    let resources = exported.get("resources").and_then(Json::as_array).expect("resources");
    assert_eq!(resources.len(), 1);
    assert_eq!(
        value_string(&resources[0], "path").as_deref(),
        Some("assets/masks/mask-001.png")
    );
    assert!(resources[0].get("imageSrc").is_none());
    let segments = exported.get("segments").and_then(Json::as_array).expect("segments");
    assert_eq!(
        value_string(&segments[0], "imagePath").as_deref(),
        Some("assets/masks/mask-001.png")
    );
    assert!(segments[0].get("imageSrc").is_none());
}

#[test]
fn pictures_without_a_resource_get_one() {
    let images = vec![ImagePackageEntry {
        original_path: "/m.png".to_string(),
        package_path: "assets/masks/mask-001.png".to_string(),
        original_name: "m.png".to_string(),
        resource_id: None,
        segment_ids: vec![],
        size_bytes: 1,
    }];
    let exported = rewrite_editor_state_for_export(Json::Null, "s", "t", &images);
    let resources = exported.get_array("resources").expect("resources");
    assert_eq!(resources[0].get_text("id"), some("resource-packaged-1"));
    assert_eq!(resources[0].get_text("name"), some("m.png"));
    assert!(rewrite_editor_state_for_export(Json::Null, "s", "t", &vec![]).get("resources").is_none());
}

#[test]
fn pictures_of_the_timeline_are_collected() {
    let state = object(vec![
        (
            "resources",
            Json::Array(vec![object(vec![
                ("id", text("r1")),
                ("path", text("/p/a.PNG")),
                ("name", text("名")),
            ])]),
        ),
        (
            "segments",
            Json::Array(vec![
                object(vec![("id", text("s1")), ("imagePath", text("/p/a.PNG"))]),
                object(vec![("id", text("s2")), ("imagePreviewPath", text("\\p\\a.PNG"))]),
                object(vec![("imagePath", text("/p/b.jpg"))]),
                object(vec![("id", text("s4"))]),
            ]),
        ),
    ]);
    let refs = image_references(&state);
    assert_eq!(refs.len(), 2);
    assert_eq!(refs[0].segment_ids, vec!["s1".to_string(), "s2".to_string()]);
    assert_eq!((refs[0].resource_id.clone(), refs[0].given_name.clone()), (some("r1"), some("名")));
    assert_eq!(refs[1].raw_name, "b.jpg");
    let files = vec![Some((3, "a.PNG".to_string())), Some((4, " ".to_string()))];
    let entries = collect_used_image_entries(&refs, &files, false).ok().expect("entries");
    assert_eq!(entries[0].package_path, "assets/masks/mask-001.png");
    assert_eq!(entries[0].original_name, "名");
    assert_eq!(entries[1].package_path, "assets/masks/mask-002.jpg");
    assert_eq!(entries[1].original_name, "遮罩图片");
    assert_eq!(
        collect_used_image_entries(&refs, &vec![Some((3, String::new())), None], false).err(),
        some("时间轴遮罩图片不存在: /p/b.jpg")
    );
    let svg = object(vec![(
        "segments",
        Json::Array(vec![object(vec![("imagePath", text("/p/a.svg"))])]),
    )]);
    let refs = image_references(&svg);
    assert_eq!(
        collect_used_image_entries(&refs, &vec![Some((3, String::new()))], false).err(),
        some("时间轴遮罩图片格式不支持: /p/a.svg")
    );
}

fn meta() -> VideoMaskPackageProjectMeta {
    VideoMaskPackageProjectMeta {
        original_project_id: "p".to_string(),
        name: "n".to_string(),
        created_at: "c".to_string(),
        updated_at: "u".to_string(),
        revision: 1,
    }
}

fn asset(role: &str, path: &str) -> VideoMaskPackageAsset {
    VideoMaskPackageAsset {
        role: role.to_string(),
        path: path.to_string(),
        original_name: "o".to_string(),
        size_bytes: 1,
        resource_id: None,
        segment_ids: vec![],
    }
}

fn header_error(format: &str, version: u32, assets: Vec<VideoMaskPackageAsset>) -> Option<String> {
    let manifest = VideoMaskPackageManifest {
        format: format.to_string(),
        version,
        exported_at: "now".to_string(),
        project: meta(),
        assets,
    };
    let data = VideoMaskPackageProjectData {
        format: "bili-clip-flow-video-mask-project".to_string(),
        version: 1,
        project: meta(),
        editor_state: Json::Null,
    };
    validate_package_header(&manifest, &data, false).err()
}

#[test]
fn packages_are_checked() {
    let format = "bili-clip-flow-video-mask-project";
    let good = vec![asset("source", "a/s.mp4"), asset("image", "a/m.png")];
    assert_eq!(header_error(format, 1, good), None);
    assert_eq!(header_error("zip", 1, vec![]), some("项目包格式不匹配"));
    assert_eq!(header_error(format, 2, vec![]), some("项目包版本不兼容"));
    assert_eq!(header_error(format, 1, vec![asset("image", "a")]), some("项目包缺少源视频"));
    assert_eq!(
        header_error(format, 1, vec![asset("source", "../a")]),
        some("项目包内路径不安全: ../a")
    );
    assert_eq!(
        header_error(format, 1, vec![asset("source", "a"), asset("virus", "b")]),
        some("项目包包含未知资源类型: virus")
    );
    assert_eq!(
        header_error(format, 1, vec![asset("source", "a"), asset("image", "a")]),
        some("项目包资源路径重复: a")
    );
}

#[test]
fn packages_list_their_files() {
    let state = object(vec![("sourcePath", text(" /v/s.MKV "))]);
    assert_eq!(export_source(&state, &None), Ok("/v/s.MKV".to_string()));
    assert_eq!(
        export_source(&Json::Null, &None),
        Err("项目缺少源视频，无法导出".to_string())
    );
    assert_eq!(source_package_path("/v/s.MKV", false), "assets/source/source.mkv");
    assert_eq!(export_target(&state, "s.x.mkv"), "s.x_masked.mp4");
    assert_eq!(output_package_path("o.mp4"), "assets/output/o.mp4");
    let source = PackedFile { path: "p".to_string(), name: "n".to_string(), size_bytes: 5 };
    let output = Some(PackedFile { path: "q".to_string(), name: "m".to_string(), size_bytes: 6 });
    let assets = package_assets(&source, &vec![], &output);
    assert_eq!(assets.len(), 2);
    assert_eq!((assets[0].role.as_str(), assets[1].role.as_str()), ("source", "output"));
    let filled = with_package_paths(object(vec![]), &assets);
    assert_eq!(filled.get_text("sourcePath"), some("p"));
    assert_eq!(filled.get_text("targetPath"), some("q"));
}

fn place(path: &str, exists: bool) -> PackageFile {
    PackageFile { package_path: path.to_string(), exists }
}

fn below_root(files: Vec<PackageFile>) -> PackagePlaces {
    PackagePlaces { root: "/root".to_string(), backslash: false, files }
}

#[test]
fn packages_that_were_made_are_accepted() {
    let state = object(vec![(
        "segments",
        Json::Array(vec![
            object(vec![("imagePath", text("/p/a.PNG"))]),
            object(vec![("imagePath", text("/p/b.webp"))]),
        ]),
    )]);
    let refs = image_references(&state);
    let files = vec![Some((3, "a.PNG".to_string())), Some((4, "b.webp".to_string()))];
    let images = collect_used_image_entries(&refs, &files, false).ok().expect("pictures");
    assert_eq!(images[1].package_path, "assets/masks/mask-002.webp");
    let packed = |path: String| PackedFile { path, name: "n".to_string(), size_bytes: 1 };
    let source = packed(source_package_path("/v/in put.M-V", false));
    assert_eq!(source.path, "assets/source/source.mp4");
    let assets = package_assets(&source, &images, &Some(packed(output_package_path("out.mp4"))));
    assert_eq!(assets.len(), 4);
    assert_eq!(header_error("bili-clip-flow-video-mask-project", 1, assets), None);
}

#[test]
fn packages_are_unpacked() {
    let places = below_root(vec![
        place("assets/source/source.mp4", true),
        place("assets/output/output.mp4", false),
        place("assets/masks/mask-001.png", true),
    ]);
    let state = object(vec![
        ("sourcePath", text("assets/source/source.mp4")),
        ("targetPath", text("assets/output/output.mp4")),
        (
            "resources",
            Json::Array(vec![object(vec![
                ("id", text("r1")),
                ("path", text("assets/masks/mask-001.png")),
                ("imageSrc", text("x")),
            ])]),
        ),
        (
            "segments",
            Json::Array(vec![object(vec![("imagePath", text("assets/masks/mask-001.png"))])]),
        ),
    ]);
    let imported = rewrite_editor_state_for_import(state, &places).ok().expect("a state");
    assert_eq!(imported.get_text("sourcePath"), some("/root/assets/source/source.mp4"));
    assert_eq!(imported.get_text("targetPath"), some("/root/assets/output/output.mp4"));
    let resource = &imported.get_array("resources").expect("resources")[0];
    assert_eq!(resource.get_text("previewPath"), some("/root/assets/masks/mask-001.png"));
    assert!(resource.get("imageSrc").is_none());
    let segment = &imported.get_array("segments").expect("segments")[0];
    assert_eq!(segment.get_text("imagePreviewPath"), some("/root/assets/masks/mask-001.png"));
    assert_eq!(
        rewrite_editor_state_for_import(Json::Null, &places).err(),
        some("项目配置格式无效")
    );
    assert_eq!(
        absolutize_package_path("assets/output/output.mp4", true, &places),
        Err("项目包缺少文件: assets/output/output.mp4".to_string())
    );
    assert!(absolutize_package_path("../x", false, &places).is_err());
    assert_eq!(absolutize_package_path("a/new.mp4", false, &places), Ok("/root/a/new.mp4".to_string()));
}

#[test]
fn packages_give_back_what_was_packed() {
    let state = object(vec![
        ("sourcePath", text("/old/source.mp4")),
        (
            "segments",
            Json::Array(vec![
                object(vec![("imagePath", text("/old/mask.png"))]),
                object(vec![("id", text("s2"))]),
            ]),
        ),
    ]);
    let images = vec![ImagePackageEntry {
        original_path: "/old/mask.png".to_string(),
        package_path: "assets/masks/mask-001.png".to_string(),
        original_name: "mask.png".to_string(),
        resource_id: None,
        segment_ids: vec![],
        size_bytes: 10,
    }];
    let places = below_root(vec![
        place("assets/source/source.mp4", true),
        place("assets/output/output.mp4", true),
        place("assets/masks/mask-001.png", true),
    ]);
    let packed = rewrite_editor_state_for_export(
        state,
        "assets/source/source.mp4",
        "assets/output/output.mp4",
        &images,
    );
    let out = rewrite_editor_state_for_import(packed, &places).ok().expect("a state");
    assert_eq!(out.get_text("sourcePath"), some("/root/assets/source/source.mp4"));
    assert_eq!(out.get_text("targetPath"), some("/root/assets/output/output.mp4"));
    let segments = out.get_array("segments").expect("segments");
    assert_eq!(segments.len(), 2);
    assert_eq!(segments[0].get_text("imagePath"), some("/root/assets/masks/mask-001.png"));
    assert!(segments[1].get("imagePath").is_none());
}

#[test]
fn packages_need_no_video() {
    let places = below_root(vec![place("assets/source/source.mp4", true)]);
    let packed = rewrite_editor_state_for_export(
        object(vec![("sourcePath", text("/old/source.mp4"))]),
        "assets/source/source.mp4",
        "assets/output/output.mp4",
        &vec![],
    );
    let out = rewrite_editor_state_for_import(packed, &places).ok().expect("a state");
    assert_eq!(out.get_text("targetPath"), some("/root/assets/output/output.mp4"));
}

#[test]
fn pictures_are_checked_before_they_are_taken_in() {
    let paths = vec!["a.png".to_string(), "b.gif".to_string()];
    assert_eq!(check_pictures(&vec![], &vec![], false).err(), some("请选择要导入的图片"));
    assert_eq!(
        check_pictures(&paths, &vec![false, true], false).err(),
        some("图片文件不存在: a.png")
    );
    assert_eq!(
        check_pictures(&paths, &vec![true, true], false).err(),
        some("不支持的图片格式: b.gif")
    );
    assert!(check_pictures(&vec!["a.png".to_string()], &vec![true], false).is_ok());
}

#[test]
fn an_imported_state_stays_below_its_root() {
    let state = object(vec![
        ("sourcePath", text("assets/source/source.mp4")),
        ("segments", Json::Array(vec![object(vec![("imagePath", text("assets/masks/m.png"))])])),
    ]);
    let places = below_root(vec![place("assets/source/source.mp4", true), place("assets/masks/m.png", true)]);
    let out = rewrite_editor_state_for_import(state, &places).ok().expect("a state");
    let segment = &out.get_array("segments").expect("segments")[0];
    for path in [
        value_string(&out, "sourcePath"),
        value_string(segment, "imagePath"),
        value_string(segment, "imagePreviewPath"),
    ] {
        assert!(path.expect("a path").starts_with("/root/"));
    }
    let escaping = object(vec![("sourcePath", text("/elsewhere/x.mp4"))]);
    assert!(rewrite_editor_state_for_import(escaping, &places).is_err());
}

#[test]
fn files_of_a_package_lie_below_the_root() {
    let below = |root: &str, path: &str, backslash: bool| {
        project_path_from_package(root, path, backslash)
    };
    assert_eq!(below("/r", "a/b.png", false), Ok("/r/a/b.png".to_string()));
    assert_eq!(below("/r/", "a/b.png", false), Ok("/r/a/b.png".to_string()));
    assert_eq!(below("", "a", false), Ok("a".to_string()));
    assert_eq!(below("C:\\r", "a/b", true), Ok("C:\\r\\a/b".to_string()));
    assert_eq!(below("C:\\r\\", "a", true), Ok("C:\\r\\a".to_string()));
    for path in ["", " ", "/a", "a/../b", "..", "a\\b", "c:x", "./a"] {
        assert_eq!(
            below("/r", path, false).err(),
            validate_package_path(path, false).err(),
        );
        assert!(below("/r", path, false).is_err());
    }
}
