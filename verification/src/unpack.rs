//! The contents of a project's package, and reading them back.

use crate::json::{
    field, items_at, law_field_removal, law_field_update, lemma_array_view, list_view, text_at,
    with_field, without_field, Json, JsonView,
};
use crate::package::{
    all_packed, either_text, image_views, lemma_packed_path, lemma_resource_paths, list_at,
    mask_path, packed_resources, packed_segment, packed_state, shown_path, value_string, value_text,
    EntryView, ImagePackageEntry, ReferenceView,
};
use crate::project::{
    all_alphanumeric, extension_from_path, is_alphanumeric, is_mask_image, package_extension,
    package_path_error, path_below, path_key, project_path_from_package, safe_package_path,
    safe_part, supported_image, validate_package_path,
};
use crate::season::copy_opt;
use crate::segments::padded;
use crate::session::opt_text;
use crate::text::{
    all_digits, concat2, copy_text, digits_of, digits_value, is_digit, is_space, last_index_of,
    last_position, lemma_digits_of, lemma_last_index_of, lemma_split_concat, lemma_split_whole,
    lemma_trim_ends, piece, split_on, starts_with, text_eq, texts, to_chars, to_text, trim,
    trim_text,
};
use vstd::prelude::*;

verus! {

// ---------------------------------------------------------------------------
// Contents

/// What a package says of the project in it.
pub struct VideoMaskPackageProjectMeta {
    pub original_project_id: String,
    pub name: String,
    pub created_at: String,
    pub updated_at: String,
    pub revision: i64,
}

/// A file in a package.
pub struct VideoMaskPackageAsset {
    pub role: String,
    pub path: String,
    pub original_name: String,
    pub size_bytes: u64,
    pub resource_id: Option<String>,
    pub segment_ids: Vec<String>,
}

/// A file in a package.
pub ghost struct AssetView {
    pub role: Seq<char>,
    pub path: Seq<char>,
    pub original_name: Seq<char>,
    pub size_bytes: u64,
    pub resource_id: Option<Seq<char>>,
    pub segment_ids: Seq<Seq<char>>,
}

impl View for VideoMaskPackageAsset {
    type V = AssetView;

    open spec fn view(&self) -> AssetView {
        AssetView {
            role: self.role@,
            path: self.path@,
            original_name: self.original_name@,
            size_bytes: self.size_bytes,
            resource_id: opt_text(self.resource_id),
            segment_ids: texts(self.segment_ids@),
        }
    }
}

/// The views of a list of files.
pub open spec fn asset_views(v: Seq<VideoMaskPackageAsset>) -> Seq<AssetView> {
    Seq::new(v.len(), |i: int| v[i]@)
}

/// The first file of a package, which lists the others.
pub struct VideoMaskPackageManifest {
    pub format: String,
    pub version: u32,
    pub exported_at: String,
    pub project: VideoMaskPackageProjectMeta,
    pub assets: Vec<VideoMaskPackageAsset>,
}

/// The file of a package that holds the project.
pub struct VideoMaskPackageProjectData {
    pub format: String,
    pub version: u32,
    pub project: VideoMaskPackageProjectMeta,
    pub editor_state: Json,
}

/// The version of the packages that are written and read.
pub const PACKAGE_VERSION: u32 = 1;

/// What a package says that it is.
pub const PACKAGE_FORMAT: &'static str = "bili-clip-flow-video-mask-project";

/// The source of a project: the editor's, else the one that is stored.
pub fn export_source(editor_state: &Json, stored: &Option<String>) -> (r: Result<String, String>)
    ensures
        match r {
            Ok(path) => crate::baidu_sync::or_other(
                value_text(editor_state@, "sourcePath"@),
                opt_text(*stored),
            ) == Some(path@),
            Err(message) => value_text(editor_state@, "sourcePath"@) is None && *stored is None
                && message@ == "项目缺少源视频，无法导出"@,
        },
{
    match value_string(editor_state, "sourcePath") {
        Some(path) => Ok(path),
        None => match stored {
            Some(path) => Ok(copy_text(path.as_str())),
            None => Err(copy_text("项目缺少源视频，无法导出")),
        },
    }
}

/// The path of the source in a package.
/// `backslash` tells whether a backslash separates the parts of a path.
pub fn source_package_path(source: &str, backslash: bool) -> (r: String)
    ensures
        r@ == "assets/source/source."@ + package_extension(trim(source@), "mp4"@, backslash),
{
    let bare = trim_text(source);
    let ext = extension_from_path(bare.as_str(), "mp4", backslash);
    concat2("assets/source/source.", ext.as_str())
}

/// A file name without what follows its last point.
pub open spec fn without_extension(name: Seq<char>) -> Seq<char> {
    let at = last_index_of(name, '.');
    if at < 0 {
        name
    } else {
        name.take(at)
    }
}

/// Where a project's video goes: as the editor has it, else beside the source's name.
pub open spec fn target_path(state: JsonView, source_name: Seq<char>) -> Seq<char> {
    match value_text(state, "targetPath"@) {
        Some(path) => path,
        None => without_extension(source_name) + "_masked.mp4"@,
    }
}

/// Where a project's video goes. `source_name` is the file name of the source.
pub fn export_target(editor_state: &Json, source_name: &str) -> (r: String)
    ensures
        r@ == target_path(editor_state@, source_name@),
{
    match value_string(editor_state, "targetPath") {
        Some(path) => path,
        None => {
            let chars = to_chars(source_name);
            let base = match last_position(chars.as_slice(), '.') {
                Some(at) => {
                    let p = piece(chars.as_slice(), 0, at);
                    assert(p@ =~= chars@.take(at as int));
                    to_text(p.as_slice())
                },
                None => copy_text(source_name),
            };
            concat2(base.as_str(), "_masked.mp4")
        },
    }
}

/// The path of a project's video in a package.
pub fn output_package_path(output_name: &str) -> (r: String)
    ensures
        r@ == "assets/output/"@ + output_name@,
{
    concat2("assets/output/", output_name)
}

/// A file in a package that is no picture.
pub open spec fn plain_asset(
    role: Seq<char>,
    path: Seq<char>,
    name: Seq<char>,
    size_bytes: u64,
) -> AssetView {
    AssetView {
        role,
        path,
        original_name: name,
        size_bytes,
        resource_id: None,
        segment_ids: Seq::empty(),
    }
}

/// A picture in a package.
pub open spec fn image_asset(entry: EntryView) -> AssetView {
    AssetView {
        role: "image"@,
        path: entry.package_path,
        original_name: entry.original_name,
        size_bytes: entry.size_bytes,
        resource_id: entry.resource_id,
        segment_ids: entry.segment_ids,
    }
}

/// A file that goes into a package: its path there, its name and its size.
pub struct PackedFile {
    pub path: String,
    pub name: String,
    pub size_bytes: u64,
}

/// The files of a package: the source, the pictures, and the video where there is one.
pub open spec fn package_files(
    source: PackedFile,
    images: Seq<EntryView>,
    output: Option<PackedFile>,
) -> Seq<AssetView> {
    let first = seq![plain_asset("source"@, source.path@, source.name@, source.size_bytes)];
    let pictures = Seq::new(images.len(), |i: int| image_asset(images[i]));
    match output {
        Some(o) => (first + pictures).push(plain_asset("output"@, o.path@, o.name@, o.size_bytes)),
        None => first + pictures,
    }
}

fn make_asset(role: &str, file: &PackedFile) -> (r: VideoMaskPackageAsset)
    ensures
        r@ == plain_asset(role@, file.path@, file.name@, file.size_bytes),
{
    let none: Vec<String> = Vec::new();
    assert(texts(none@) =~= Seq::<Seq<char>>::empty());
    VideoMaskPackageAsset {
        role: copy_text(role),
        path: copy_text(file.path.as_str()),
        original_name: copy_text(file.name.as_str()),
        size_bytes: file.size_bytes,
        resource_id: None,
        segment_ids: none,
    }
}

/// The files of a package.
pub fn package_assets(
    source: &PackedFile,
    images: &Vec<ImagePackageEntry>,
    output: &Option<PackedFile>,
) -> (r: Vec<VideoMaskPackageAsset>)
    ensures
        asset_views(r@) == package_files(*source, image_views(images@), *output),
{
    let ghost es = image_views(images@);
    let ghost pictures = Seq::new(es.len(), |i: int| image_asset(es[i]));
    let mut out: Vec<VideoMaskPackageAsset> = Vec::new();
    let first = make_asset("source", source);
    let ghost head = seq![first@];
    out.push(first);
    let mut i: usize = 0;
    assert(asset_views(out@) =~= head + pictures.take(0));
    while i < images.len()
        invariant
            i <= images@.len(),
            es == image_views(images@),
            pictures == Seq::new(es.len(), |i: int| image_asset(es[i])),
            asset_views(out@) == head + pictures.take(i as int),
        decreases images.len() - i,
    {
        assert(es[i as int] == images@[i as int]@);
        let asset = VideoMaskPackageAsset {
            role: copy_text("image"),
            path: copy_text(images[i].package_path.as_str()),
            original_name: copy_text(images[i].original_name.as_str()),
            size_bytes: images[i].size_bytes,
            resource_id: copy_opt(&images[i].resource_id),
            segment_ids: crate::package::copy_texts(&images[i].segment_ids),
        };
        let ghost done = asset_views(out@);
        let ghost added = asset@;
        assert(added == pictures[i as int]);
        out.push(asset);
        assert(asset_views(out@) =~= done.push(added));
        assert(done.push(added) =~= head + pictures.take(i + 1));
        i += 1;
    }
    assert(pictures.take(i as int) =~= pictures);
    if let Some(o) = output {
        let asset = make_asset("output", o);
        let ghost done = asset_views(out@);
        let ghost added = asset@;
        out.push(asset);
        assert(asset_views(out@) =~= done.push(added));
    }
    out
}

// ---------------------------------------------------------------------------
// Accepting a package

/// Tells whether a role of a file is known.
pub open spec fn known_role(role: Seq<char>) -> bool {
    role == "source"@ || role == "image"@ || role == "output"@
}

/// What is wrong with the first files of a package, if anything is: a path that is not safe, an
/// unknown role, or a path that came before.
pub open spec fn files_error(assets: Seq<AssetView>, n: int, backslash: bool) -> Option<Seq<char>>
    decreases n,
{
    if n <= 0 {
        None
    } else {
        match files_error(assets, n - 1, backslash) {
            Some(e) => Some(e),
            None => {
                let a = assets[n - 1];
                match package_path_error(a.path, backslash) {
                    Some(e) => Some(e),
                    None => if !known_role(a.role) {
                        Some("项目包包含未知资源类型: "@ + a.role)
                    } else if exists|j: int| 0 <= j < n - 1 && (#[trigger] assets[j]).path
                        == a.path {
                        Some("项目包资源路径重复: "@ + a.path)
                    } else {
                        None
                    },
                }
            },
        }
    }
}

/// Tells whether a package has a source.
pub open spec fn has_source(assets: Seq<AssetView>) -> bool {
    exists|i: int| 0 <= i < assets.len() && (#[trigger] assets[i]).role == "source"@
}

/// What is wrong with a package, if anything is.
pub open spec fn package_error(
    manifest_format: Seq<char>,
    manifest_version: u32,
    data_format: Seq<char>,
    data_version: u32,
    assets: Seq<AssetView>,
    backslash: bool,
) -> Option<Seq<char>> {
    if manifest_format != PACKAGE_FORMAT@ || data_format
        != PACKAGE_FORMAT@ {
        Some("项目包格式不匹配"@)
    } else if manifest_version != PACKAGE_VERSION || data_version != PACKAGE_VERSION {
        Some("项目包版本不兼容"@)
    } else if !has_source(assets) {
        Some("项目包缺少源视频"@)
    } else {
        files_error(assets, assets.len() as int, backslash)
    }
}

fn path_repeats(assets: &Vec<VideoMaskPackageAsset>, n: usize) -> (r: bool)
    requires
        n < assets@.len(),
    ensures
        r == exists|j: int|
            0 <= j < n && (#[trigger] asset_views(assets@)[j]).path == asset_views(
                assets@,
            )[n as int].path,
{
    let ghost all = asset_views(assets@);
    let mut j: usize = 0;
    assert(all[n as int] == assets@[n as int]@);
    while j < n
        invariant
            j <= n < assets@.len(),
            all == asset_views(assets@),
            all[n as int] == assets@[n as int]@,
            forall|k: int| 0 <= k < j ==> (#[trigger] all[k]).path != all[n as int].path,
        decreases n - j,
    {
        assert(all[j as int] == assets@[j as int]@);
        if text_eq(assets[j].path.as_str(), assets[n].path.as_str()) {
            return true;
        }
        j += 1;
    }
    false
}

fn source_index(assets: &Vec<VideoMaskPackageAsset>, role: &str) -> (r: usize)
    ensures
        r == role_index(asset_views(assets@), role@),
        r <= assets@.len(),
{
    let ghost all = asset_views(assets@);
    let mut i: usize = 0;
    assert(all.skip(0) =~= all);
    while i < assets.len()
        invariant
            i <= assets@.len(),
            all == asset_views(assets@),
            role_index(all, role@) == i + role_index(all.skip(i as int), role@),
        decreases assets.len() - i,
    {
        assert(all.skip(i as int)[0] == assets@[i as int]@);
        assert(all.skip(i as int).drop_first() =~= all.skip(i + 1));
        if text_eq(assets[i].role.as_str(), role) {
            return i;
        }
        i += 1;
    }
    assert(all.skip(i as int).len() == 0);
    i
}

/// The position of the first file with a role.
pub open spec fn role_index(assets: Seq<AssetView>, role: Seq<char>) -> int
    decreases assets.len(),
{
    if assets.len() == 0 || assets[0].role == role {
        0
    } else {
        1 + role_index(assets.drop_first(), role)
    }
}

proof fn lemma_role_index(assets: Seq<AssetView>, role: Seq<char>)
    ensures
        0 <= role_index(assets, role) <= assets.len(),
        role_index(assets, role) < assets.len() ==> assets[role_index(assets, role)].role == role,
        forall|k: int| 0 <= k < role_index(assets, role) ==> (#[trigger] assets[k]).role != role,
    decreases assets.len(),
{
    if assets.len() > 0 && assets[0].role != role {
        lemma_role_index(assets.drop_first(), role);
        assert forall|k: int| 0 <= k < role_index(assets, role) implies (#[trigger] assets[k]).role
            != role by {
            if k > 0 {
                assert(assets[k] == assets.drop_first()[k - 1]);
            }
        }
    }
}

proof fn lemma_files_error(assets: Seq<AssetView>, k: int, n: int, backslash: bool)
    requires
        k <= n,
        files_error(assets, k, backslash) is Some,
    ensures
        files_error(assets, n, backslash) == files_error(assets, k, backslash),
    decreases n - k,
{
    if k < n {
        lemma_files_error(assets, k, n - 1, backslash);
    }
}

/// Tells whether a package can be read: it has the right format and version, a source, and files
/// whose paths are safe and differ.
pub fn validate_package_header(
    manifest: &VideoMaskPackageManifest,
    project_data: &VideoMaskPackageProjectData,
    backslash: bool,
) -> (r: Result<(), String>)
    ensures
        opt_text(r.err()) == package_error(
            manifest.format@,
            manifest.version,
            project_data.format@,
            project_data.version,
            asset_views(manifest.assets@),
            backslash,
        ),
{
    if !text_eq(manifest.format.as_str(), PACKAGE_FORMAT) || !text_eq(
        project_data.format.as_str(),
        PACKAGE_FORMAT,
    ) {
        return Err(copy_text("项目包格式不匹配"));
    }
    if manifest.version != PACKAGE_VERSION || project_data.version != PACKAGE_VERSION {
        return Err(copy_text("项目包版本不兼容"));
    }
    let ghost all = asset_views(manifest.assets@);
    let source: usize = source_index(&manifest.assets, "source");
    proof {
        lemma_role_index(all, "source"@);
    }
    if source >= manifest.assets.len() {
        return Err(copy_text("项目包缺少源视频"));
    }
    assert(all[source as int].role == "source"@);
    let mut i: usize = 0;
    let len: usize = manifest.assets.len();
    while i < len
        invariant
            i <= len,
            len == manifest.assets@.len(),
            all == asset_views(manifest.assets@),
            has_source(all),
            manifest.format@ == PACKAGE_FORMAT@,
            project_data.format@ == PACKAGE_FORMAT@,
            manifest.version == PACKAGE_VERSION,
            project_data.version == PACKAGE_VERSION,
            files_error(all, i as int, backslash) is None,
        decreases len - i,
    {
        let asset = &manifest.assets[i];
        assert(all[i as int] == asset@);
        if let Err(e) = validate_package_path(asset.path.as_str(), backslash) {
            proof {
                lemma_files_error(all, i + 1, len as int, backslash);
            }
            return Err(e);
        }
        let known = text_eq(asset.role.as_str(), "source") || text_eq(asset.role.as_str(), "image")
            || text_eq(asset.role.as_str(), "output");
        if !known {
            let e = concat2("项目包包含未知资源类型: ", asset.role.as_str());
            proof {
                assert(files_error(all, i + 1, backslash) == Some(e@));
                lemma_files_error(all, i + 1, len as int, backslash);
            }
            return Err(e);
        }
        if path_repeats(&manifest.assets, i) {
            let e = concat2("项目包资源路径重复: ", asset.path.as_str());
            proof {
                assert(files_error(all, i + 1, backslash) == Some(e@));
                lemma_files_error(all, i + 1, len as int, backslash);
            }
            return Err(e);
        }
        i += 1;
    }
    Ok(())
}

/// The files of a package that is accepted have safe paths that all differ, and one of them is
/// the source.
pub proof fn law_accepted_files(assets: Seq<AssetView>, n: int, i: int, j: int, backslash: bool)
    requires
        0 <= i < j < n <= assets.len(),
        files_error(assets, n, backslash) is None,
    ensures
        safe_package_path(assets[i].path),
        safe_package_path(assets[j].path),
        assets[i].path != assets[j].path,
        known_role(assets[i].role),
    decreases n,
{
    lemma_file_accepted(assets, n, i, backslash);
    lemma_file_accepted(assets, n, j, backslash);
}

proof fn lemma_file_accepted(assets: Seq<AssetView>, n: int, i: int, backslash: bool)
    requires
        0 <= i < n <= assets.len(),
        files_error(assets, n, backslash) is None,
    ensures
        safe_package_path(assets[i].path),
        known_role(assets[i].role),
        forall|k: int| 0 <= k < i ==> (#[trigger] assets[k]).path != assets[i].path,
    decreases n,
{
    if i < n - 1 {
        lemma_file_accepted(assets, n - 1, i, backslash);
    }
}

// ---------------------------------------------------------------------------
// The editor's state out of a package

/// A file that a package names, and whether it is there once the package is unpacked.
pub struct PackageFile {
    pub package_path: String,
    pub exists: bool,
}

/// Where a package was unpacked to, and which files are there. A backslash separates the parts of a
/// path on some systems only.
pub struct PackagePlaces {
    pub root: String,
    pub backslash: bool,
    pub files: Vec<PackageFile>,
}

/// What is known of a package that was unpacked.
pub ghost struct PlacesView {
    pub root: Seq<char>,
    pub backslash: bool,
    pub files: Seq<(Seq<char>, bool)>,
}

/// The views of a list of files.
pub open spec fn file_states(v: Seq<PackageFile>) -> Seq<(Seq<char>, bool)> {
    Seq::new(v.len(), |i: int| (v[i].package_path@, v[i].exists))
}

impl PackagePlaces {
    /// The root and the files.
    pub open spec fn view(&self) -> PlacesView {
        PlacesView {
            root: self.root@,
            backslash: self.backslash,
            files: file_states(self.files@),
        }
    }
}

/// Tells whether a file is there.
pub open spec fn is_there(files: Seq<(Seq<char>, bool)>, path: Seq<char>) -> bool {
    exists|i: int| 0 <= i < files.len() && #[trigger] files[i] == (path, true)
}

/// The path of a file outside of the package, or the error: its path is not safe, or it is
/// missing.
pub open spec fn unpacked_path(path: Seq<char>, must_exist: bool, places: PlacesView) -> Result<
    Seq<char>,
    Seq<char>,
> {
    match package_path_error(path, places.backslash) {
        Some(e) => Err(e),
        None => if must_exist && !is_there(places.files, path) {
            Err("项目包缺少文件: "@ + path)
        } else {
            Ok(path_below(places.root, path, places.backslash))
        },
    }
}

fn find_file(files: &Vec<PackageFile>, path: &str) -> (r: bool)
    ensures
        r == is_there(file_states(files@), path@),
{
    let ghost all = file_states(files@);
    let mut i: usize = 0;
    while i < files.len()
        invariant
            i <= files@.len(),
            all == file_states(files@),
            forall|k: int| 0 <= k < i ==> #[trigger] all[k] != (path@, true),
        decreases files.len() - i,
    {
        assert(all[i as int] == (files@[i as int].package_path@, files@[i as int].exists));
        if files[i].exists && text_eq(files[i].package_path.as_str(), path) {
            assert(all[i as int] == (path@, true));
            return true;
        }
        i += 1;
    }
    false
}

/// The path of a file outside of the package.
pub fn absolutize_package_path(path: &str, must_exist: bool, places: &PackagePlaces) -> (r: Result<
    String,
    String,
>)
    ensures
        match r {
            Ok(a) => unpacked_path(path@, must_exist, places@) == Ok::<Seq<char>, Seq<char>>(a@),
            Err(e) => unpacked_path(path@, must_exist, places@) == Err::<Seq<char>, Seq<char>>(e@),
        },
{
    match project_path_from_package(places.root.as_str(), path, places.backslash) {
        Err(e) => Err(e),
        Ok(a) => if must_exist && !find_file(&places.files, path) {
            Err(concat2("项目包缺少文件: ", path))
        } else {
            Ok(a)
        },
    }
}

/// A value whose path under a key is that outside of the package, or the error.
pub open spec fn unpacked_field(
    v: JsonView,
    key: Seq<char>,
    must_exist: bool,
    places: PlacesView,
) -> Result<JsonView, Seq<char>> {
    match value_text(v, key) {
        None => Ok(v),
        Some(path) => match unpacked_path(path, must_exist, places) {
            Ok(a) => Ok(with_field(v, key, JsonView::Str(a))),
            Err(e) => Err(e),
        },
    }
}

fn rewrite_package_path_field(
    value: &mut Json,
    key: &str,
    must_exist: bool,
    places: &PackagePlaces,
) -> (r: Result<(), String>)
    ensures
        match r {
            Ok(()) => unpacked_field(old(value)@, key@, must_exist, places@) == Ok::<
                JsonView,
                Seq<char>,
            >(final(value)@),
            Err(e) => unpacked_field(old(value)@, key@, must_exist, places@) == Err::<
                JsonView,
                Seq<char>,
            >(e@),
        },
{
    match value_string(value, key) {
        None => Ok(()),
        Some(path) => match absolutize_package_path(path.as_str(), must_exist, places) {
            Ok(a) => {
                value.set(key, Json::Str(a));
                Ok(())
            },
            Err(e) => Err(e),
        },
    }
}

/// A value that shows a picture, with its paths those outside of the package: the path of the
/// picture, and that of its preview, which is the picture itself where there is none.
pub open spec fn unpacked_item(
    v: JsonView,
    path_key: Seq<char>,
    preview_key: Seq<char>,
    places: PlacesView,
) -> Result<JsonView, Seq<char>> {
    match unpacked_field(v, path_key, true, places) {
        Err(e) => Err(e),
        Ok(a) => {
            let b = if value_text(a, preview_key) is Some {
                unpacked_field(a, preview_key, true, places)
            } else {
                match value_text(a, path_key) {
                    Some(path) => Ok(with_field(a, preview_key, JsonView::Str(path))),
                    None => Ok(a),
                }
            };
            match b {
                Err(e) => Err(e),
                Ok(c) => Ok(without_field(c, "imageSrc"@)),
            }
        },
    }
}

fn unpack_item(value: &mut Json, path_key: &str, preview_key: &str, places: &PackagePlaces) -> (r:
    Result<(), String>)
    ensures
        match r {
            Ok(()) => unpacked_item(
                old(value)@,
                path_key@,
                preview_key@,
                places@,
            ) == Ok::<JsonView, Seq<char>>(final(value)@),
            Err(e) => unpacked_item(
                old(value)@,
                path_key@,
                preview_key@,
                places@,
            ) == Err::<JsonView, Seq<char>>(e@),
        },
{
    if let Err(e) = rewrite_package_path_field(value, path_key, true, places) {
        return Err(e);
    }
    let preview = value_string(value, preview_key);
    if preview.is_some() {
        if let Err(e) = rewrite_package_path_field(value, preview_key, true, places) {
            return Err(e);
        }
    } else if let Some(path) = value_string(value, path_key) {
        value.set(preview_key, Json::Str(path));
    }
    value.unset("imageSrc");
    Ok(())
}

/// Values that show pictures, with their paths those outside of the package, or the first error.
pub open spec fn unpacked_items(
    list: Seq<JsonView>,
    path_key: Seq<char>,
    preview_key: Seq<char>,
    places: PlacesView,
) -> Result<Seq<JsonView>, Seq<char>>
    decreases list.len(),
{
    if list.len() == 0 {
        Ok(Seq::empty())
    } else {
        match unpacked_items(list.drop_last(), path_key, preview_key, places) {
            Err(e) => Err(e),
            Ok(done) => match unpacked_item(list.last(), path_key, preview_key, places) {
                Err(e) => Err(e),
                Ok(item) => Ok(done.push(item)),
            },
        }
    }
}

proof fn lemma_not_unpacked(
    list: Seq<JsonView>,
    path_key: Seq<char>,
    preview_key: Seq<char>,
    places: PlacesView,
    k: int,
    e: Seq<char>,
)
    requires
        0 <= k <= list.len(),
        unpacked_items(list.take(k), path_key, preview_key, places) == Err::<
            Seq<JsonView>,
            Seq<char>,
        >(e),
    ensures
        unpacked_items(list, path_key, preview_key, places) == Err::<Seq<JsonView>, Seq<char>>(e),
    decreases list.len() - k,
{
    if k < list.len() {
        assert(list.take(k + 1).drop_last() =~= list.take(k));
        lemma_not_unpacked(list, path_key, preview_key, places, k + 1, e);
    } else {
        assert(list.take(k) =~= list);
    }
}

fn unpack_items(
    list: &Vec<Json>,
    path_key: &str,
    preview_key: &str,
    places: &PackagePlaces,
) -> (r: Result<Vec<Json>, String>)
    ensures
        match r {
            Ok(out) => unpacked_items(
                list_view(list@),
                path_key@,
                preview_key@,
                places@,
            ) == Ok::<Seq<JsonView>, Seq<char>>(list_view(out@)),
            Err(e) => unpacked_items(
                list_view(list@),
                path_key@,
                preview_key@,
                places@,
            ) == Err::<Seq<JsonView>, Seq<char>>(e@),
        },
{
    let ghost all = list_view(list@);
    let ghost ps = places@;
    let mut out: Vec<Json> = Vec::new();
    let mut i: usize = 0;
    assert(all.take(0) =~= Seq::<JsonView>::empty());
    assert(list_view(out@) =~= Seq::<JsonView>::empty());
    while i < list.len()
        invariant
            i <= list@.len(),
            all == list_view(list@),
            ps == places@,
            unpacked_items(all.take(i as int), path_key@, preview_key@, ps) == Ok::<
                Seq<JsonView>,
                Seq<char>,
            >(list_view(out@)),
        decreases list.len() - i,
    {
        assert(all.take(i + 1).drop_last() =~= all.take(i as int));
        assert(all.take(i + 1).last() == list@[i as int]@);
        let mut item = list[i].copy();
        if let Err(e) = unpack_item(&mut item, path_key, preview_key, places) {
            proof {
                lemma_not_unpacked(all, path_key@, preview_key@, ps, i + 1, e@);
            }
            return Err(e);
        }
        let ghost done = list_view(out@);
        let ghost added = item@;
        out.push(item);
        assert(list_view(out@) =~= done.push(added));
        i += 1;
    }
    assert(all.take(i as int) =~= all);
    Ok(out)
}

/// A value whose list under a key is unpacked, or the first error.
pub open spec fn unpacked_list(
    v: JsonView,
    key: Seq<char>,
    path_key: Seq<char>,
    preview_key: Seq<char>,
    places: PlacesView,
) -> Result<JsonView, Seq<char>> {
    match items_at(v, key) {
        None => Ok(v),
        Some(list) => match unpacked_items(list, path_key, preview_key, places) {
            Err(e) => Err(e),
            Ok(out) => Ok(with_field(v, key, JsonView::Array(out))),
        },
    }
}

fn unpack_list(
    value: &mut Json,
    key: &str,
    path_key: &str,
    preview_key: &str,
    places: &PackagePlaces,
) -> (r: Result<(), String>)
    ensures
        match r {
            Ok(()) => unpacked_list(
                old(value)@,
                key@,
                path_key@,
                preview_key@,
                places@,
            ) == Ok::<JsonView, Seq<char>>(final(value)@),
            Err(e) => unpacked_list(
                old(value)@,
                key@,
                path_key@,
                preview_key@,
                places@,
            ) == Err::<JsonView, Seq<char>>(e@),
        },
{
    let unpacked: Vec<Json> = match value.get_array(key) {
        None => {
            return Ok(());
        },
        Some(list) => match unpack_items(list, path_key, preview_key, places) {
            Ok(out) => out,
            Err(e) => {
                return Err(e);
            },
        },
    };
    proof {
        lemma_array_view(unpacked);
    }
    value.set(key, Json::Array(unpacked));
    Ok(())
}

/// The editor's state out of a package: its paths are those outside of the package. Or the first
/// error.
pub open spec fn unpacked_state(
    state: JsonView,
    places: PlacesView,
) -> Result<JsonView, Seq<char>> {
    if !(state is Object) {
        Err("项目配置格式无效"@)
    } else {
        match unpacked_field(state, "sourcePath"@, true, places) {
            Err(e) => Err(e),
            Ok(a) => match unpacked_field(a, "targetPath"@, false, places) {
                Err(e) => Err(e),
                Ok(b) => match unpacked_list(b, "resources"@, "path"@, "previewPath"@, places) {
                    Err(e) => Err(e),
                    Ok(c) => unpacked_list(
                        c,
                        "segments"@,
                        "imagePath"@,
                        "imagePreviewPath"@,
                        places,
                    ),
                },
            },
        }
    }
}

/// The editor's state out of a package. `places` tells where it was unpacked to, and what is there.
pub fn rewrite_editor_state_for_import(editor_state: Json, places: &PackagePlaces) -> (r:
    Result<Json, String>)
    ensures
        match r {
            Ok(state) => unpacked_state(editor_state@, places@) == Ok::<
                JsonView,
                Seq<char>,
            >(state@),
            Err(e) => unpacked_state(editor_state@, places@) == Err::<
                JsonView,
                Seq<char>,
            >(e@),
        },
{
    let is_object = match &editor_state {
        Json::Object(_) => true,
        _ => false,
    };
    if !is_object {
        return Err(copy_text("项目配置格式无效"));
    }
    let mut state = editor_state;
    if let Err(e) = rewrite_package_path_field(&mut state, "sourcePath", true, places) {
        return Err(e);
    }
    if let Err(e) = rewrite_package_path_field(&mut state, "targetPath", false, places) {
        return Err(e);
    }
    if let Err(e) = unpack_list(&mut state, "resources", "path", "previewPath", places) {
        return Err(e);
    }
    if let Err(e) = unpack_list(&mut state, "segments", "imagePath", "imagePreviewPath", places) {
        return Err(e);
    }
    Ok(state)
}

/// Tells whether the path under a key, if there is one, lies below the root.
pub open spec fn stays_under(v: JsonView, key: Seq<char>, places: PlacesView) -> bool {
    value_text(v, key) matches Some(path) ==> lies_below(path, places)
}

/// Tells whether a path begins with the root and leads on by a safe path.
pub open spec fn lies_below(path: Seq<char>, places: PlacesView) -> bool {
    &&& starts_with(path, places.root)
    &&& exists|p: Seq<char>|
        #[trigger] safe_package_path(p) && path == path_below(
            places.root,
            p,
            places.backslash,
        )
}

/// Tells whether a root has no white space in front.
pub open spec fn plain_root(places: PlacesView) -> bool {
    places.root.len() > 0 ==> !is_space(places.root[0])
}

/// Tells whether the two paths of an item of a list lie below the root.
pub open spec fn item_under(
    list: Seq<JsonView>,
    i: int,
    path_key: Seq<char>,
    preview_key: Seq<char>,
    places: PlacesView,
) -> bool {
    0 <= i < list.len() ==> stays_under(list[i], path_key, places) && stays_under(
        list[i],
        preview_key,
        places,
    )
}

/// The path below a root of a path under a key stands there without white space around it.
proof fn lemma_path_below(v: JsonView, key: Seq<char>, path: Seq<char>, places: PlacesView)
    requires
        plain_root(places),
        value_text(v, key) == Some(path),
        safe_package_path(path),
    ensures
        ({
            let a = path_below(places.root, path, places.backslash);
            a.len() > 0 && trim(a) == a && lies_below(a, places)
        }),
{
    let a = path_below(places.root, path, places.backslash);
    lemma_trim_ends(text_at(v, key)->0);
    assert(a.last() == path.last());
    assert(a.subrange(0, places.root.len() as int) =~= places.root);
    if places.root.len() > 0 {
        assert(a[0] == places.root[0]);
    } else {
        assert(a =~= path);
    }
    assert(crate::text::trim_start(a) == a);
}

proof fn lemma_field_under(
    v: JsonView,
    key: Seq<char>,
    must_exist: bool,
    places: PlacesView,
    other: Seq<char>,
)
    requires
        plain_root(places),
        unpacked_field(v, key, must_exist, places) is Ok,
        other != key,
    ensures
        stays_under(unpacked_field(v, key, must_exist, places)->Ok_0, key, places),
        field(unpacked_field(v, key, must_exist, places)->Ok_0, other) == field(v, other),
{
    if let Some(path) = value_text(v, key) {
        let a = unpacked_path(path, must_exist, places)->Ok_0;
        lemma_path_below(v, key, path, places);
        law_field_update(v, key, JsonView::Str(a), other);
    }
}

proof fn lemma_item_under(
    v: JsonView,
    path_key: Seq<char>,
    preview_key: Seq<char>,
    places: PlacesView,
)
    requires
        plain_root(places),
        unpacked_item(v, path_key, preview_key, places) is Ok,
        path_key != preview_key,
        path_key != "imageSrc"@,
        preview_key != "imageSrc"@,
    ensures
        stays_under(unpacked_item(v, path_key, preview_key, places)->Ok_0, path_key, places),
        stays_under(unpacked_item(v, path_key, preview_key, places)->Ok_0, preview_key, places),
{
    let a = unpacked_field(v, path_key, true, places)->Ok_0;
    lemma_field_under(v, path_key, true, places, preview_key);
    let b = if value_text(a, preview_key) is Some {
        lemma_field_under(a, preview_key, true, places, path_key);
        unpacked_field(a, preview_key, true, places)->Ok_0
    } else {
        match value_text(a, path_key) {
            Some(path) => {
                law_field_update(a, preview_key, JsonView::Str(path), path_key);
                lemma_trim_ends(text_at(a, path_key)->0);
                assert(trim(path) == path);
                with_field(a, preview_key, JsonView::Str(path))
            },
            None => a,
        }
    };
    assert(stays_under(b, path_key, places));
    assert(stays_under(b, preview_key, places));
    if b is Object {
        law_field_removal(b, "imageSrc"@, path_key);
        law_field_removal(b, "imageSrc"@, preview_key);
    }
}

proof fn lemma_items_under(
    list: Seq<JsonView>,
    path_key: Seq<char>,
    preview_key: Seq<char>,
    places: PlacesView,
    i: int,
)
    requires
        plain_root(places),
        unpacked_items(list, path_key, preview_key, places) is Ok,
        0 <= i < unpacked_items(list, path_key, preview_key, places)->Ok_0.len(),
        path_key != preview_key,
        path_key != "imageSrc"@,
        preview_key != "imageSrc"@,
    ensures
        ({
            let item = unpacked_items(list, path_key, preview_key, places)->Ok_0[i];
            stays_under(item, path_key, places) && stays_under(item, preview_key, places)
        }),
    decreases list.len(),
{
    if list.len() > 0 {
        let done = unpacked_items(list.drop_last(), path_key, preview_key, places)->Ok_0;
        if i < done.len() {
            lemma_items_under(list.drop_last(), path_key, preview_key, places, i);
        } else {
            lemma_item_under(list.last(), path_key, preview_key, places);
        }
    }
}

proof fn lemma_list_under(
    v: JsonView,
    key: Seq<char>,
    path_key: Seq<char>,
    preview_key: Seq<char>,
    places: PlacesView,
    i: int,
    other: Seq<char>,
)
    requires
        plain_root(places),
        unpacked_list(v, key, path_key, preview_key, places) is Ok,
        path_key != preview_key,
        path_key != "imageSrc"@,
        preview_key != "imageSrc"@,
        other != key,
    ensures
        ({
            let out = unpacked_list(v, key, path_key, preview_key, places)->Ok_0;
            &&& field(out, other) == field(v, other)
            &&& items_at(out, key) matches Some(list) ==> item_under(
                list,
                i,
                path_key,
                preview_key,
                places,
            )
        }),
{
    if let Some(list) = items_at(v, key) {
        let done = unpacked_items(list, path_key, preview_key, places)->Ok_0;
        law_field_update(v, key, JsonView::Array(done), other);
        if 0 <= i < done.len() {
            lemma_items_under(list, path_key, preview_key, places, i);
        }
    }
}

/// A state that was read out of a package names no file outside of the project: the path of its
/// video, that of its output, and the paths of its pictures and their previews lie below the root
/// that the package was unpacked to.
pub proof fn law_import_stays_under(
    state: JsonView,
    places: PlacesView,
    i: int,
)
    requires
        plain_root(places),
        unpacked_state(state, places) is Ok,
    ensures
        ({
            let out = unpacked_state(state, places)->Ok_0;
            &&& stays_under(out, "sourcePath"@, places)
            &&& stays_under(out, "targetPath"@, places)
            &&& items_at(out, "resources"@) matches Some(list) ==> item_under(
                list,
                i,
                "path"@,
                "previewPath"@,
                places,
            )
            &&& items_at(out, "segments"@) matches Some(list) ==> item_under(
                list,
                i,
                "imagePath"@,
                "imagePreviewPath"@,
                places,
            )
        }),
{
    reveal_strlit("sourcePath");
    reveal_strlit("targetPath");
    reveal_strlit("resources");
    reveal_strlit("segments");
    reveal_strlit("path");
    reveal_strlit("previewPath");
    reveal_strlit("imagePath");
    reveal_strlit("imagePreviewPath");
    reveal_strlit("imageSrc");
    assert("sourcePath"@[0] == 's' && "targetPath"@[0] == 't');
    assert("sourcePath"@.len() == 10 && "targetPath"@.len() == 10);
    assert("resources"@.len() == 9 && "segments"@.len() == 8);
    assert("path"@.len() == 4 && "previewPath"@.len() == 11 && "imagePath"@.len() == 9);
    assert("imagePreviewPath"@.len() == 16 && "imageSrc"@.len() == 8);
    let a = unpacked_field(state, "sourcePath"@, true, places)->Ok_0;
    lemma_field_under(state, "sourcePath"@, true, places, "targetPath"@);
    let b = unpacked_field(a, "targetPath"@, false, places)->Ok_0;
    lemma_field_under(a, "targetPath"@, false, places, "sourcePath"@);
    let c = unpacked_list(b, "resources"@, "path"@, "previewPath"@, places)->Ok_0;
    let (r, p, q) = ("resources"@, "path"@, "previewPath"@);
    lemma_list_under(b, r, p, q, places, i, "sourcePath"@);
    lemma_list_under(b, r, p, q, places, i, "targetPath"@);
    let (s, x, y) = ("segments"@, "imagePath"@, "imagePreviewPath"@);
    lemma_list_under(c, s, x, y, places, i, "sourcePath"@);
    lemma_list_under(c, s, x, y, places, i, "targetPath"@);
    lemma_list_under(c, s, x, y, places, i, "resources"@);
}

/// The path of the first file with a role.
pub open spec fn role_path(assets: Seq<AssetView>, role: Seq<char>) -> Option<Seq<char>> {
    if role_index(assets, role) < assets.len() {
        Some(assets[role_index(assets, role)].path)
    } else {
        None
    }
}

/// A state with a path under a key that has none.
pub open spec fn with_default_path(v: JsonView, key: Seq<char>, path: Option<Seq<char>>) -> JsonView {
    if value_text(v, key) is Some {
        v
    } else {
        match path {
            Some(p) => with_field(v, key, JsonView::Str(p)),
            None => v,
        }
    }
}

/// The editor's state in a package, with the paths that it does not name taken from the list of
/// files.
pub fn with_package_paths(editor_state: Json, assets: &Vec<VideoMaskPackageAsset>) -> (r: Json)
    ensures
        r@ == with_default_path(
            with_default_path(
                editor_state@,
                "sourcePath"@,
                role_path(asset_views(assets@), "source"@),
            ),
            "targetPath"@,
            role_path(asset_views(assets@), "output"@),
        ),
{
    let ghost all = asset_views(assets@);
    let mut state = editor_state;
    let source_known = value_string(&state, "sourcePath").is_some();
    if !source_known {
        let i: usize = source_index(assets, "source");
        if i < assets.len() {
            assert(all[i as int] == assets@[i as int]@);
            state.set("sourcePath", Json::Str(copy_text(assets[i].path.as_str())));
        }
    }
    let target_known = value_string(&state, "targetPath").is_some();
    if !target_known {
        let i: usize = source_index(assets, "output");
        if i < assets.len() {
            assert(all[i as int] == assets@[i as int]@);
            state.set("targetPath", Json::Str(copy_text(assets[i].path.as_str())));
        }
    }
    state
}

// ---------------------------------------------------------------------------
// Pictures taken into a project

/// What is wrong with pictures that are taken into a project, if anything is.
pub open spec fn pictures_error(paths: Seq<Seq<char>>, present: Seq<bool>, n: int, backslash: bool) -> Option<
    Seq<char>,
>
    decreases n,
{
    if n <= 0 {
        None
    } else {
        match pictures_error(paths, present, n - 1, backslash) {
            Some(e) => Some(e),
            None => if !present[n - 1] {
                Some("图片文件不存在: "@ + paths[n - 1])
            } else if !is_mask_image(paths[n - 1], backslash) {
                Some("不支持的图片格式: "@ + paths[n - 1])
            } else {
                None
            },
        }
    }
}

proof fn lemma_pictures_error(paths: Seq<Seq<char>>, present: Seq<bool>, k: int, n: int, backslash: bool)
    requires
        k <= n,
        pictures_error(paths, present, k, backslash) is Some,
    ensures
        pictures_error(paths, present, n, backslash) == pictures_error(paths, present, k, backslash),
    decreases n - k,
{
    if k < n {
        lemma_pictures_error(paths, present, k, n - 1, backslash);
    }
}

/// Tells whether pictures can be taken into a project. `present` tells which of them are there.
/// `backslash` tells whether a backslash separates the parts of a path.
pub fn check_pictures(paths: &Vec<String>, present: &Vec<bool>, backslash: bool) -> (r: Result<(), String>)
    requires
        present@.len() == paths@.len(),
    ensures
        opt_text(r.err()) == (if paths@.len() == 0 {
            Some("请选择要导入的图片"@)
        } else {
            pictures_error(texts(paths@), present@, paths@.len() as int, backslash)
        }),
{
    if paths.len() == 0 {
        return Err(copy_text("请选择要导入的图片"));
    }
    let ghost all = texts(paths@);
    let len: usize = paths.len();
    let mut i: usize = 0;
    while i < len
        invariant
            i <= len,
            len == paths@.len(),
            len > 0,
            present@.len() == paths@.len(),
            all == texts(paths@),
            pictures_error(all, present@, i as int, backslash) is None,
        decreases len - i,
    {
        assert(all[i as int] == paths@[i as int]@);
        if !present[i] {
            let e = concat2("图片文件不存在: ", paths[i].as_str());
            proof {
                assert(pictures_error(all, present@, i + 1, backslash) == Some(e@));
                lemma_pictures_error(all, present@, i + 1, len as int, backslash);
            }
            return Err(e);
        }
        if !supported_image(paths[i].as_str(), backslash) {
            let e = concat2("不支持的图片格式: ", paths[i].as_str());
            proof {
                assert(pictures_error(all, present@, i + 1, backslash) == Some(e@));
                lemma_pictures_error(all, present@, i + 1, len as int, backslash);
            }
            return Err(e);
        }
        i += 1;
    }
    Ok(())
}

// ---------------------------------------------------------------------------
// Packing and unpacking

/// Tells whether a path can be read back out of a package: it is safe, stands there without
/// white space around it, and its file was unpacked.
pub open spec fn unpacks(path: Seq<char>, places: PlacesView) -> bool {
    &&& path.len() > 0
    &&& trim(path) == path
    &&& safe_package_path(path)
    &&& is_there(places.files, path)
}

/// Where a path leads outside of the package.
pub open spec fn outside_path(path: Seq<char>, places: PlacesView) -> Seq<char> {
    path_below(places.root, path, places.backslash)
}

/// A value that shows a picture in a package is read back with the paths outside of it.
proof fn lemma_shown_item(
    v: JsonView,
    first: Seq<char>,
    second: Seq<char>,
    path: Seq<char>,
    places: PlacesView,
)
    requires
        v is Object,
        first != second,
        first != "imageSrc"@,
        second != "imageSrc"@,
        text_at(v, first) == Some(path),
        text_at(v, second) == Some(path),
        unpacks(path, places),
    ensures
        unpacked_item(v, first, second, places) matches Ok(r) && text_at(r, first) == Some(
            outside_path(path, places),
        ) && text_at(r, second) == Some(outside_path(path, places)),
{
    let out = JsonView::Str(outside_path(path, places));
    let a = with_field(v, first, out);
    let b = with_field(a, second, out);
    law_field_update(v, first, out, second);
    law_field_update(a, second, out, first);
    law_field_removal(b, "imageSrc"@, first);
    law_field_removal(b, "imageSrc"@, second);
    assert(unpacked_field(v, first, true, places) == Ok::<JsonView, Seq<char>>(a));
    assert(value_text(a, second) == Some(path));
    assert(unpacked_field(a, second, true, places) == Ok::<JsonView, Seq<char>>(b));
}

/// Values that can be read back one by one can be read back together.
proof fn lemma_items_read(
    list: Seq<JsonView>,
    first: Seq<char>,
    second: Seq<char>,
    places: PlacesView,
)
    requires
        forall|i: int|
            0 <= i < list.len() ==> unpacked_item(#[trigger] list[i], first, second, places) is Ok,
    ensures
        unpacked_items(list, first, second, places) matches Ok(out) && out.len() == list.len()
            && forall|i: int|
            0 <= i < list.len() ==> unpacked_item(list[i], first, second, places) == Ok::<
                JsonView,
                Seq<char>,
            >(#[trigger] out[i]),
    decreases list.len(),
{
    if list.len() > 0 {
        let rest = list.drop_last();
        assert forall|i: int| 0 <= i < rest.len() implies unpacked_item(
            #[trigger] rest[i],
            first,
            second,
            places,
        ) is Ok by {
            assert(rest[i] == list[i]);
        }
        lemma_items_read(rest, first, second, places);
        assert(unpacked_item(list[list.len() - 1], first, second, places) is Ok);
        let done = unpacked_items(rest, first, second, places)->Ok_0;
        let out = unpacked_items(list, first, second, places)->Ok_0;
        assert forall|i: int| 0 <= i < list.len() implies unpacked_item(
            list[i],
            first,
            second,
            places,
        ) == Ok::<JsonView, Seq<char>>(#[trigger] out[i]) by {
            if i < rest.len() {
                assert(out[i] == done[i]);
                assert(rest[i] == list[i]);
            }
        }
    }
}

proof fn lemma_state_keys()
    ensures
        "sourcePath"@ != "targetPath"@,
        "sourcePath"@ != "resources"@,
        "sourcePath"@ != "segments"@,
        "targetPath"@ != "resources"@,
        "targetPath"@ != "segments"@,
        "resources"@ != "segments"@,
        "path"@ != "previewPath"@,
        "path"@ != "imageSrc"@,
        "path"@ != "id"@,
        "previewPath"@ != "id"@,
        "previewPath"@ != "imageSrc"@,
        "imagePath"@ != "imagePreviewPath"@,
        "imagePath"@ != "imageSrc"@,
        "imagePreviewPath"@ != "imageSrc"@,
{
    reveal_strlit("sourcePath");
    reveal_strlit("targetPath");
    reveal_strlit("resources");
    reveal_strlit("segments");
    reveal_strlit("path");
    reveal_strlit("previewPath");
    reveal_strlit("imageSrc");
    reveal_strlit("id");
    reveal_strlit("imagePath");
    reveal_strlit("imagePreviewPath");
    assert("sourcePath"@[0] == 's' && "targetPath"@[0] == 't');
    assert("resources"@.len() == 9 && "segments"@.len() == 8 && "sourcePath"@.len() == 10
        && "targetPath"@.len() == 10);
    assert("path"@.len() == 4 && "previewPath"@.len() == 11 && "imageSrc"@.len() == 8 && "id"@.len()
        == 2 && "imagePath"@.len() == 9 && "imagePreviewPath"@.len() == 16);
}

/// A segment of a package is read back: with the path of its picture outside of the package, or
/// without a picture where it shows none.
proof fn lemma_segment_read(
    segment: JsonView,
    entries: Seq<EntryView>,
    places: PlacesView,
)
    requires
        either_text(segment, "imagePath"@, "imagePreviewPath"@) is None || (shown_path(
            segment,
            "imagePath"@,
            "imagePreviewPath"@,
            entries,
        ) matches Some(path) && unpacks(path, places)),
    ensures
        unpacked_item(
            packed_segment(segment, entries),
            "imagePath"@,
            "imagePreviewPath"@,
            places,
        ) matches Ok(r) && (shown_path(
            segment,
            "imagePath"@,
            "imagePreviewPath"@,
            entries,
        ) matches Some(path) ==> text_at(r, "imagePath"@) == Some(outside_path(path, places))),
{
    lemma_state_keys();
    match shown_path(segment, "imagePath"@, "imagePreviewPath"@, entries) {
        Some(path) => {
            let p = JsonView::Str(path);
            let a = with_field(segment, "imagePath"@, p);
            let b = with_field(a, "imagePreviewPath"@, p);
            law_field_update(segment, "imagePath"@, p, "imagePreviewPath"@);
            law_field_update(a, "imagePreviewPath"@, p, "imagePath"@);
            law_field_removal(b, "imageSrc"@, "imagePath"@);
            law_field_removal(b, "imageSrc"@, "imagePreviewPath"@);
            lemma_shown_item(
                packed_segment(segment, entries),
                "imagePath"@,
                "imagePreviewPath"@,
                path,
                places,
            );
        },
        None => {
            let bare = without_field(segment, "imageSrc"@);
            if segment is Object {
                law_field_removal(segment, "imageSrc"@, "imagePath"@);
                law_field_removal(segment, "imageSrc"@, "imagePreviewPath"@);
            }
            assert(value_text(bare, "imagePath"@) is None);
            assert(value_text(bare, "imagePreviewPath"@) is None);
        },
    }
}

/// A resource of a package is read back.
proof fn lemma_resource_read(
    list: Seq<JsonView>,
    entries: Seq<EntryView>,
    places: PlacesView,
    k: int,
)
    requires
        0 <= k < packed_resources(list, entries).len(),
        forall|j: int| 0 <= j < entries.len() ==> unpacks((#[trigger] entries[j]).package_path, places),
    ensures
        unpacked_item(packed_resources(list, entries)[k], "path"@, "previewPath"@, places) is Ok,
{
    lemma_state_keys();
    let item = packed_resources(list, entries)[k];
    lemma_resource_paths(list, entries, k);
    let path = text_at(item, "path"@)->0;
    let j = choose|j: int| 0 <= j < entries.len() && (#[trigger] entries[j]).package_path == path;
    assert(unpacks(entries[j].package_path, places));
    lemma_shown_item(item, "path"@, "previewPath"@, path, places);
}

/// A package that was made of a project can be unpacked: where its source and its pictures are
/// there, the editor's state is read back, with the source, the video and the pictures of its
/// segments at the places to which they were unpacked. The video need not be in the package.
pub proof fn law_package_round_trip(
    state: JsonView,
    source: Seq<char>,
    target: Seq<char>,
    entries: Seq<EntryView>,
    places: PlacesView,
    k: int,
)
    requires
        state is Object,
        unpacks(source, places),
        target.len() > 0,
        trim(target) == target,
        safe_package_path(target),
        forall|j: int| 0 <= j < entries.len() ==> unpacks((#[trigger] entries[j]).package_path, places),
        forall|i: int|
            0 <= i < list_at(state, "segments"@).len() ==> either_text(
                #[trigger] list_at(state, "segments"@)[i],
                "imagePath"@,
                "imagePreviewPath"@,
            ) is None || shown_path(
                list_at(state, "segments"@)[i],
                "imagePath"@,
                "imagePreviewPath"@,
                entries,
            ) is Some,
    ensures
        unpacked_state(packed_state(state, source, target, entries), places) matches Ok(out) && {
            &&& text_at(out, "sourcePath"@) == Some(outside_path(source, places))
            &&& text_at(out, "targetPath"@) == Some(outside_path(target, places))
            &&& list_at(out, "segments"@).len() == list_at(state, "segments"@).len()
            &&& 0 <= k < list_at(state, "segments"@).len() ==> (shown_path(
                list_at(state, "segments"@)[k],
                "imagePath"@,
                "imagePreviewPath"@,
                entries,
            ) matches Some(path) ==> text_at(list_at(out, "segments"@)[k], "imagePath"@) == Some(
                outside_path(path, places),
            ))
        },
{
    lemma_state_keys();
    // what is packed
    let s = JsonView::Str(source);
    let t = JsonView::Str(target);
    let p1 = with_field(state, "sourcePath"@, s);
    let p2 = with_field(p1, "targetPath"@, t);
    law_field_update(state, "sourcePath"@, s, "targetPath"@);
    law_field_update(state, "sourcePath"@, s, "resources"@);
    law_field_update(state, "sourcePath"@, s, "segments"@);
    law_field_update(p1, "targetPath"@, t, "sourcePath"@);
    law_field_update(p1, "targetPath"@, t, "resources"@);
    law_field_update(p1, "targetPath"@, t, "segments"@);
    let known = list_at(p2, "resources"@);
    let stocked_list = JsonView::Array(packed_resources(known, entries));
    let has_resources = items_at(p2, "resources"@) is Some || entries.len() > 0;
    let p3 = if has_resources {
        with_field(p2, "resources"@, stocked_list)
    } else {
        p2
    };
    law_field_update(p2, "resources"@, stocked_list, "sourcePath"@);
    law_field_update(p2, "resources"@, stocked_list, "targetPath"@);
    law_field_update(p2, "resources"@, stocked_list, "segments"@);
    let segments = list_at(state, "segments"@);
    let cut = Seq::new(segments.len(), |i: int| packed_segment(segments[i], entries));
    let has_segments = items_at(p3, "segments"@) is Some;
    let p4 = if has_segments {
        with_field(p3, "segments"@, JsonView::Array(cut))
    } else {
        p3
    };
    law_field_update(p3, "segments"@, JsonView::Array(cut), "sourcePath"@);
    law_field_update(p3, "segments"@, JsonView::Array(cut), "targetPath"@);
    law_field_update(p3, "segments"@, JsonView::Array(cut), "resources"@);
    assert(field(p3, "segments"@) == field(state, "segments"@));
    assert(p4 == packed_state(state, source, target, entries));
    // what is read back
    let a = JsonView::Str(outside_path(source, places));
    let b = JsonView::Str(outside_path(target, places));
    let u1 = with_field(p4, "sourcePath"@, a);
    let u2 = with_field(u1, "targetPath"@, b);
    law_field_update(p4, "sourcePath"@, a, "targetPath"@);
    law_field_update(p4, "sourcePath"@, a, "resources"@);
    law_field_update(p4, "sourcePath"@, a, "segments"@);
    law_field_update(u1, "targetPath"@, b, "sourcePath"@);
    law_field_update(u1, "targetPath"@, b, "resources"@);
    law_field_update(u1, "targetPath"@, b, "segments"@);
    assert(unpacked_field(p4, "sourcePath"@, true, places) == Ok::<JsonView, Seq<char>>(u1));
    assert(unpacked_field(u1, "targetPath"@, false, places) == Ok::<JsonView, Seq<char>>(u2));
    let stocked = packed_resources(known, entries);
    let u3 = if has_resources {
        assert forall|i: int| 0 <= i < stocked.len() implies unpacked_item(
            #[trigger] stocked[i],
            "path"@,
            "previewPath"@,
            places,
        ) is Ok by {
            lemma_resource_read(known, entries, places, i);
        }
        lemma_items_read(stocked, "path"@, "previewPath"@, places);
        let out = unpacked_items(stocked, "path"@, "previewPath"@, places)->Ok_0;
        let r = JsonView::Array(out);
        law_field_update(u2, "resources"@, r, "sourcePath"@);
        law_field_update(u2, "resources"@, r, "targetPath"@);
        law_field_update(u2, "resources"@, r, "segments"@);
        with_field(u2, "resources"@, r)
    } else {
        u2
    };
    assert(unpacked_list(u2, "resources"@, "path"@, "previewPath"@, places) == Ok::<
        JsonView,
        Seq<char>,
    >(u3));
    assert(field(u3, "segments"@) == field(p4, "segments"@));
    if has_segments {
        assert forall|i: int| 0 <= i < cut.len() implies unpacked_item(
            #[trigger] cut[i],
            "imagePath"@,
            "imagePreviewPath"@,
            places,
        ) is Ok by {
            lemma_shown_unpacks(segments[i], entries, places);
            lemma_segment_read(segments[i], entries, places);
        }
        lemma_items_read(cut, "imagePath"@, "imagePreviewPath"@, places);
        let out = unpacked_items(cut, "imagePath"@, "imagePreviewPath"@, places)->Ok_0;
        let r = JsonView::Array(out);
        law_field_update(u3, "segments"@, r, "sourcePath"@);
        law_field_update(u3, "segments"@, r, "targetPath"@);
        if 0 <= k < segments.len() {
            lemma_shown_unpacks(segments[k], entries, places);
            lemma_segment_read(segments[k], entries, places);
            assert(unpacked_item(cut[k], "imagePath"@, "imagePreviewPath"@, places) == Ok::<
                JsonView,
                Seq<char>,
            >(out[k]));
        }
    }
}

/// The path in the package of a picture that a segment shows is one that is read back.
proof fn lemma_shown_unpacks(
    segment: JsonView,
    entries: Seq<EntryView>,
    places: PlacesView,
)
    requires
        forall|j: int| 0 <= j < entries.len() ==> unpacks((#[trigger] entries[j]).package_path, places),
    ensures
        shown_path(segment, "imagePath"@, "imagePreviewPath"@, entries) matches Some(path)
            ==> unpacks(path, places),
{
    if let Some(path) = shown_path(segment, "imagePath"@, "imagePreviewPath"@, entries) {
        let key = path_key(either_text(segment, "imagePath"@, "imagePreviewPath"@)->0);
        lemma_packed_path(entries, key);
        let j = choose|j: int|
            0 <= j < entries.len() && (#[trigger] entries[j]).package_path == path;
        assert(unpacks(entries[j].package_path, places));
    }
}

// ---------------------------------------------------------------------------
// What was packed is accepted

/// Tells whether a character can stand anywhere in a name in a package.
pub open spec fn is_plain(c: char) -> bool {
    c != '/' && c != '\\' && c != ':' && !is_space(c)
}

/// Tells whether a text is an ordinary name in a package.
pub open spec fn plain_name(s: Seq<char>) -> bool {
    &&& s.len() > 2
    &&& forall|k: int| 0 <= k < s.len() ==> is_plain(#[trigger] s[k])
}

/// Three ordinary names make a path that is safe.
proof fn lemma_plain_path(a: Seq<char>, b: Seq<char>, c: Seq<char>)
    requires
        plain_name(a),
        plain_name(b),
        plain_name(c),
    ensures
        safe_package_path(a.push('/') + (b.push('/') + c)),
        trim(a.push('/') + (b.push('/') + c)) == a.push('/') + (b.push('/') + c),
{
    let tail = b.push('/') + c;
    let path = a.push('/') + tail;
    assert(path[0] == a[0] && is_plain(a[0]));
    assert(path.last() == c.last() && is_plain(c[c.len() - 1]));
    assert(trim(path) == path);
    assert forall|k: int| 0 <= k < path.len() implies path[k] != '\\' && path[k] != ':' by {
        if k < a.len() {
            assert(is_plain(a[k]));
        } else if a.len() < k <= a.len() + b.len() {
            assert(is_plain(b[k - a.len() - 1]));
        } else if k > a.len() + b.len() + 1 {
            assert(is_plain(c[k - a.len() - b.len() - 2]));
        }
    }
    lemma_bare_name(a);
    lemma_bare_name(b);
    lemma_bare_name(c);
    lemma_split_concat(a, tail, '/');
    lemma_split_concat(b, c, '/');
    let parts = split_on(path, '/');
    assert(parts =~= seq![a, b, c]);
    assert forall|i: int| 0 <= i < parts.len() implies safe_part(parts, i) by {
        reveal_strlit(".");
        reveal_strlit("..");
    }
}

proof fn lemma_bare_name(s: Seq<char>)
    requires
        plain_name(s),
    ensures
        split_on(s, '/') == seq![s],
        trim(s) == s,
{
    assert forall|k: int| 0 <= k < s.len() implies s[k] != '/' by {
        assert(is_plain(s[k]));
    }
    lemma_split_whole(s, '/');
    assert(is_plain(s[0]) && is_plain(s[s.len() - 1]));
}

/// An extension in a package is made of letters and digits, where the other one is.
proof fn lemma_plain_extension(path: Seq<char>, other: Seq<char>, backslash: bool)
    requires
        other.len() > 0,
        all_alphanumeric(other),
    ensures
        package_extension(path, other, backslash).len() > 0,
        all_alphanumeric(package_extension(path, other, backslash)),
{
}

proof fn lemma_directories()
    ensures
        plain_name("assets"@),
        plain_name("source"@),
        plain_name("masks"@),
        plain_name("output"@),
        "source"@[0] == 's',
        "masks"@[0] == 'm',
        "output"@[0] == 'o',
        "assets"@.len() == 6,
{
    reveal_strlit("assets");
    reveal_strlit("source");
    reveal_strlit("masks");
    reveal_strlit("output");
}

/// The path of a source in a package is safe.
proof fn lemma_source_path(source: Seq<char>, backslash: bool)
    ensures
        ({
            let path = "assets/source/source."@ + package_extension(trim(source), "mp4"@, backslash);
            safe_package_path(path) && trim(path) == path && path.len() > 7 && path[7]
                == 's'
        }),
{
    let ext = package_extension(trim(source), "mp4"@, backslash);
    let path = "assets/source/source."@ + ext;
    let name = "source."@ + ext;
    reveal_strlit("mp4");
    lemma_plain_extension(trim(source), "mp4"@, backslash);
    lemma_directories();
    reveal_strlit("assets");
    reveal_strlit("source");
    reveal_strlit("source.");
    reveal_strlit("assets/source/source.");
    assert forall|k: int| 0 <= k < name.len() implies is_plain(#[trigger] name[k]) by {
        if k >= 7 {
            assert(is_alphanumeric(ext[k - 7]));
        }
    }
    lemma_plain_path("assets"@, "source"@, name);
    assert(path =~= "assets"@.push('/') + ("source"@.push('/') + name));
}

/// The digits in the path of a picture.
proof fn lemma_padded(digits: Seq<char>, len: int)
    requires
        digits.len() > 0,
        all_digits(digits),
    ensures
        padded(digits, len).len() > 0,
        all_digits(padded(digits, len)),
        digits_value(padded(digits, len)) == digits_value(digits),
    decreases len - digits.len(),
{
    if digits.len() < len {
        let more = seq!['0'] + digits;
        assert forall|i: int| 0 <= i < more.len() implies is_digit(#[trigger] more[i]) by {
            if i > 0 {
                assert(is_digit(digits[i - 1]));
            }
        }
        lemma_leading_zero(digits);
        lemma_padded(more, len);
    }
}

proof fn lemma_leading_zero(digits: Seq<char>)
    ensures
        digits_value(seq!['0'] + digits) == digits_value(digits),
    decreases digits.len(),
{
    let more = seq!['0'] + digits;
    if digits.len() == 0 {
        assert(more.drop_last() =~= Seq::<char>::empty());
        assert(digits_value(more.drop_last()) == 0);
    } else {
        lemma_leading_zero(digits.drop_last());
        assert(more.drop_last() =~= seq!['0'] + digits.drop_last());
        assert(more.last() == digits.last());
    }
}

/// The path of a picture in a package is safe.
proof fn lemma_mask_path(index: int, original: Seq<char>, backslash: bool)
    requires
        index > 0,
    ensures
        ({
            let path = mask_path(index, original, backslash);
            &&& safe_package_path(path)
            &&& trim(path) == path
            &&& path.len() > 18
            &&& path[7] == 'm'
            &&& split_on(path.skip(18), '.')[0] == padded(digits_of(index as nat), 3)
        }),
{
    let ext = package_extension(original, "png"@, backslash);
    let number = padded(digits_of(index as nat), 3);
    let path = mask_path(index, original, backslash);
    let name = "mask-"@ + number + "."@ + ext;
    reveal_strlit("png");
    reveal_strlit(".");
    reveal_strlit("mask-");
    reveal_strlit("assets");
    reveal_strlit("masks");
    reveal_strlit("assets/masks/mask-");
    lemma_plain_extension(original, "png"@, backslash);
    lemma_digits_of(index as nat);
    lemma_padded(digits_of(index as nat), 3);
    lemma_directories();
    assert forall|k: int| 0 <= k < name.len() implies is_plain(#[trigger] name[k]) by {
        if 5 <= k < 5 + number.len() {
            assert(name[k] == number[k - 5]);
            assert(is_digit(number[k - 5]));
        } else if k > 5 + number.len() {
            assert(name[k] == ext[k - 6 - number.len()]);
            assert(is_alphanumeric(ext[k - 6 - number.len()]));
        }
    }
    lemma_plain_path("assets"@, "masks"@, name);
    assert(path =~= "assets"@.push('/') + ("masks"@.push('/') + name));
    assert(path.skip(18) =~= number.push('.') + ext);
    assert forall|k: int| 0 <= k < number.len() implies number[k] != '.' by {
        assert(is_digit(number[k]));
    }
    lemma_split_whole(number, '.');
    lemma_split_concat(number, ext, '.');
}

/// Pictures that are packed up are numbered.
proof fn lemma_numbered(
    refs: Seq<ReferenceView>,
    files: Seq<Option<(u64, Seq<char>)>>,
    k: int,
    backslash: bool,
)
    requires
        all_packed(refs, files, backslash) is Ok,
        0 <= k < refs.len(),
    ensures
        all_packed(refs, files, backslash)->Ok_0.len() == refs.len(),
        all_packed(refs, files, backslash)->Ok_0[k].package_path == mask_path(k + 1, refs[k].path, backslash),
    decreases refs.len(),
{
    let init = refs.drop_last();
    if init.len() > 0 {
        lemma_numbered(
            init,
            files,
            if k < init.len() {
                k
            } else {
                0
            },
            backslash,
        );
    } else {
        assert(all_packed(init, files, backslash) == Ok::<Seq<EntryView>, Seq<char>>(Seq::empty()));
    }
}

/// A package that was made of a project is accepted: its source and its pictures stand under
/// safe paths that differ, and so does its video where its name is an ordinary one.
pub proof fn law_export_is_accepted(
    source: PackedFile,
    source_path: Seq<char>,
    refs: Seq<ReferenceView>,
    files: Seq<Option<(u64, Seq<char>)>>,
    output: Option<PackedFile>,
    output_name: Seq<char>,
    backslash: bool,
)
    requires
        source.path@ == "assets/source/source."@ + package_extension(trim(source_path), "mp4"@, backslash),
        all_packed(refs, files, backslash) is Ok,
        output matches Some(o) ==> o.path@ == "assets/output/"@ + output_name
            && safe_package_path(o.path@),
    ensures
        package_error(
            PACKAGE_FORMAT@,
            PACKAGE_VERSION,
            PACKAGE_FORMAT@,
            PACKAGE_VERSION,
            package_files(source, all_packed(refs, files, backslash)->Ok_0, output),
            backslash,
        ) is None,
{
    let images = all_packed(refs, files, backslash)->Ok_0;
    let assets = package_files(source, images, output);
    assert(images.len() == refs.len()) by {
        if refs.len() > 0 {
            lemma_numbered(refs, files, 0, backslash);
        }
    }
    assert(assets[0].role == "source"@);
    assert(has_source(assets));
    lemma_packed_files(source, source_path, refs, files, output, output_name, assets.len() as int, backslash);
}

proof fn lemma_packed_files(
    source: PackedFile,
    source_path: Seq<char>,
    refs: Seq<ReferenceView>,
    files: Seq<Option<(u64, Seq<char>)>>,
    output: Option<PackedFile>,
    output_name: Seq<char>,
    n: int,
    backslash: bool,
)
    requires
        source.path@ == "assets/source/source."@ + package_extension(trim(source_path), "mp4"@, backslash),
        all_packed(refs, files, backslash) is Ok,
        all_packed(refs, files, backslash)->Ok_0.len() == refs.len(),
        output matches Some(o) ==> o.path@ == "assets/output/"@ + output_name
            && safe_package_path(o.path@),
        0 <= n <= package_files(source, all_packed(refs, files, backslash)->Ok_0, output).len(),
    ensures
        files_error(package_files(source, all_packed(refs, files, backslash)->Ok_0, output), n, backslash) is None,
    decreases n,
{
    if n > 0 {
        let images = all_packed(refs, files, backslash)->Ok_0;
        let assets = package_files(source, images, output);
        lemma_packed_files(source, source_path, refs, files, output, output_name, n - 1, backslash);
        lemma_asset(source, source_path, refs, files, output, output_name, n - 1, backslash);
        assert forall|j: int| 0 <= j < n - 1 implies (#[trigger] assets[j]).path
            != assets[n - 1].path by {
            lemma_asset(source, source_path, refs, files, output, output_name, j, backslash);
            if n - 1 <= refs.len() && j > 0 {
                // two pictures
                let a = padded(digits_of(j as nat), 3);
                let b = padded(digits_of((n - 1) as nat), 3);
                lemma_digits_of(j as nat);
                lemma_digits_of((n - 1) as nat);
                lemma_padded(digits_of(j as nat), 3);
                lemma_padded(digits_of((n - 1) as nat), 3);
                assert(digits_value(a) == j && digits_value(b) == n - 1);
            }
        }
    }
}

/// A file of a package by its place: its path is safe, and tells what it is.
proof fn lemma_asset(
    source: PackedFile,
    source_path: Seq<char>,
    refs: Seq<ReferenceView>,
    files: Seq<Option<(u64, Seq<char>)>>,
    output: Option<PackedFile>,
    output_name: Seq<char>,
    i: int,
    backslash: bool,
)
    requires
        source.path@ == "assets/source/source."@ + package_extension(trim(source_path), "mp4"@, backslash),
        all_packed(refs, files, backslash) is Ok,
        all_packed(refs, files, backslash)->Ok_0.len() == refs.len(),
        output matches Some(o) ==> o.path@ == "assets/output/"@ + output_name
            && safe_package_path(o.path@),
        0 <= i < package_files(source, all_packed(refs, files, backslash)->Ok_0, output).len(),
    ensures
        ({
            let asset = package_files(source, all_packed(refs, files, backslash)->Ok_0, output)[i];
            &&& safe_package_path(asset.path)
            &&& known_role(asset.role)
            &&& asset.path[7] == (if i == 0 {
                's'
            } else if i <= refs.len() {
                'm'
            } else {
                'o'
            })
            &&& 0 < i <= refs.len() ==> split_on(asset.path.skip(18), '.')[0] == padded(
                digits_of(i as nat),
                3,
            )
        }),
{
    lemma_source_path(source_path, backslash);
    if 0 < i <= refs.len() {
        lemma_numbered(refs, files, i - 1, backslash);
        lemma_mask_path(i, refs[i - 1].path, backslash);
    } else if i > 0 {
        reveal_strlit("assets/output/");
    }
}

// ---------------------------------------------------------------------------
// What is in a package

/// The extension of a name goes from its last dot on; a name without a dot has none.
pub proof fn law_extension_taken_off(stem: Seq<char>, ext: Seq<char>)
    requires
        forall|k: int| 0 <= k < ext.len() ==> ext[k] != '.',
    ensures
        without_extension(stem.push('.') + ext) == stem,
        without_extension(ext) == ext,
{
    let whole = stem.push('.') + ext;
    lemma_last_index_of(whole, '.');
    let at = last_index_of(whole, '.');
    assert(whole[stem.len() as int] == '.');
    if at > stem.len() {
        assert(whole[at] == ext[at - stem.len() - 1]);
    }
    assert(at == stem.len());
    assert(whole.take(at) =~= stem);
    lemma_last_index_of(ext, '.');
    if last_index_of(ext, '.') >= 0 {
        assert(ext[last_index_of(ext, '.')] == '.');
    }
}

/// The output goes where the project says, else beside its source.
pub proof fn law_output_named_by_source(state: JsonView, source_name: Seq<char>)
    ensures
        value_text(state, "targetPath"@) is Some ==> target_path(state, source_name) == value_text(
            state,
            "targetPath"@,
        )->0,
        value_text(state, "targetPath"@) is None ==> target_path(state, source_name)
            == without_extension(source_name) + "_masked.mp4"@,
{
}

/// A package holds the source first, then every picture in its order, and the output last, where
/// there is one; each with its path, its name and its size.
pub proof fn law_package_holds_all(
    source: PackedFile,
    images: Seq<EntryView>,
    output: Option<PackedFile>,
    i: int,
)
    requires
        0 <= i < images.len(),
    ensures
        ({
            let files = package_files(source, images, output);
            &&& files.len() == images.len() + 1 + (if output is Some {
                1int
            } else {
                0
            })
            &&& files[0].role == "source"@ && files[0].path == source.path@
                && files[0].original_name == source.name@ && files[0].size_bytes
                == source.size_bytes
            &&& files[i + 1].role == "image"@ && files[i + 1].path == images[i].package_path
                && files[i + 1].original_name == images[i].original_name && files[i + 1].size_bytes
                == images[i].size_bytes && files[i + 1].resource_id == images[i].resource_id
                && files[i + 1].segment_ids == images[i].segment_ids
            &&& output is Some ==> ({
                let o = files[images.len() as int + 1];
                o.role == "output"@ && o.path == output->0.path@ && o.original_name
                    == output->0.name@ && o.size_bytes == output->0.size_bytes
            })
        }),
{
}

/// The file of a role is the first that has it.
pub proof fn law_first_file_of_role(assets: Seq<AssetView>, role: Seq<char>, i: int)
    requires
        0 <= i <= assets.len(),
        forall|k: int| 0 <= k < i ==> (#[trigger] assets[k]).role != role,
        i < assets.len() ==> assets[i].role == role,
    ensures
        i < assets.len() ==> role_path(assets, role) == Some(assets[i].path),
        i == assets.len() ==> role_path(assets, role) is None,
{
    lemma_role_found(assets, role, i);
}

proof fn lemma_role_found(assets: Seq<AssetView>, role: Seq<char>, i: int)
    requires
        0 <= i <= assets.len(),
        forall|k: int| 0 <= k < i ==> (#[trigger] assets[k]).role != role,
        i < assets.len() ==> assets[i].role == role,
    ensures
        role_index(assets, role) == i,
    decreases assets.len(),
{
    if i > 0 {
        assert(assets[0].role != role);
        let rest = assets.drop_first();
        assert forall|k: int| 0 <= k < i - 1 implies (#[trigger] rest[k]).role != role by {
            assert(rest[k] == assets[k + 1]);
        }
        if i < assets.len() {
            assert(rest[i - 1] == assets[i]);
        }
        lemma_role_found(rest, role, i - 1);
    }
}

/// A path that the project tells stays; one that it does not is that of the package.
pub proof fn law_told_path_stays(v: JsonView, key: Seq<char>, path: Seq<char>)
    requires
        v is Object,
    ensures
        value_text(v, key) is Some ==> with_default_path(v, key, Some(path)) == v,
        value_text(v, key) is None ==> text_at(with_default_path(v, key, Some(path)), key) == Some(
            path,
        ),
        with_default_path(v, key, None) == v,
{
    let other = key.push('a');
    assert(other.len() != key.len());
    law_field_update(v, key, JsonView::Str(path), other);
}

/// Tells whether a picture is there and is a picture.
pub open spec fn takes(paths: Seq<Seq<char>>, present: Seq<bool>, k: int, backslash: bool) -> bool {
    present[k] && is_mask_image(paths[k], backslash)
}

/// Pictures are taken where each is there and is a picture.
pub proof fn law_pictures_taken(
    paths: Seq<Seq<char>>,
    present: Seq<bool>,
    n: int,
    backslash: bool,
    i: int,
)
    requires
        0 <= i < n <= paths.len(),
        n <= present.len(),
    ensures
        pictures_error(paths, present, n, backslash) is None ==> present[i] && is_mask_image(
            paths[i],
            backslash,
        ),
        (forall|k: int|
            0 <= k < n ==> #[trigger] takes(paths, present, k, backslash))
            ==> pictures_error(paths, present, n, backslash) is None,
        !present[i] && (forall|k: int|
            0 <= k < i ==> #[trigger] takes(paths, present, k, backslash))
            ==> pictures_error(paths, present, n, backslash) == Some(
            "图片文件不存在: "@ + paths[i],
        ),
    decreases n,
{
    if i < n - 1 {
        law_pictures_taken(paths, present, n - 1, backslash, i);
    }
    if forall|k: int| 0 <= k < n ==> #[trigger] takes(paths, present, k, backslash) {
        lemma_all_taken(paths, present, n, backslash);
    }
    if !present[i] && forall|k: int|
        0 <= k < i ==> #[trigger] takes(paths, present, k, backslash) {
        lemma_all_taken(paths, present, i, backslash);
        lemma_first_missing(paths, present, n, backslash, i);
    }
}

proof fn lemma_all_taken(paths: Seq<Seq<char>>, present: Seq<bool>, n: int, backslash: bool)
    requires
        0 <= n <= paths.len(),
        forall|k: int| 0 <= k < n ==> #[trigger] takes(paths, present, k, backslash),
    ensures
        pictures_error(paths, present, n, backslash) is None,
    decreases n,
{
    if n > 0 {
        lemma_all_taken(paths, present, n - 1, backslash);
        assert(takes(paths, present, n - 1, backslash));
    }
}

proof fn lemma_first_missing(
    paths: Seq<Seq<char>>,
    present: Seq<bool>,
    n: int,
    backslash: bool,
    i: int,
)
    requires
        0 <= i < n <= paths.len(),
        !present[i],
        pictures_error(paths, present, i, backslash) is None,
    ensures
        pictures_error(paths, present, n, backslash) == Some("图片文件不存在: "@ + paths[i]),
    decreases n,
{
    if i < n - 1 {
        lemma_first_missing(paths, present, n - 1, backslash, i);
    }
}

/// What is wrong with a package is told: first its format, then its version, then that its source is
/// missing.
pub proof fn law_package_refusal_told(
    format: Seq<char>,
    version: u32,
    assets: Seq<AssetView>,
    backslash: bool,
)
    ensures
        format != PACKAGE_FORMAT@ ==> package_error(
            format,
            version,
            PACKAGE_FORMAT@,
            PACKAGE_VERSION,
            assets,
            backslash,
        ) == Some("项目包格式不匹配"@),
        version != PACKAGE_VERSION ==> package_error(
            PACKAGE_FORMAT@,
            version,
            PACKAGE_FORMAT@,
            PACKAGE_VERSION,
            assets,
            backslash,
        ) == Some("项目包版本不兼容"@),
        !has_source(assets) ==> package_error(
            PACKAGE_FORMAT@,
            PACKAGE_VERSION,
            PACKAGE_FORMAT@,
            PACKAGE_VERSION,
            assets,
            backslash,
        ) == Some("项目包缺少源视频"@),
{
}

/// A package holds sources, pictures and outputs.
pub proof fn law_three_roles(role: Seq<char>)
    ensures
        known_role("source"@),
        known_role("image"@),
        known_role("output"@),
        role != "source"@ && role != "image"@ && role != "output"@ ==> !known_role(role),
{
}

/// A package has its source where one of its files has that role.
pub proof fn law_source_among_files(assets: Seq<AssetView>, i: int)
    ensures
        0 <= i < assets.len() && assets[i].role == "source"@ ==> has_source(assets),
        (forall|k: int| 0 <= k < assets.len() ==> (#[trigger] assets[k]).role != "source"@)
            ==> !has_source(assets),
{
}

} // verus!
