//! Packing a video mask project up, and unpacking it.

use crate::baidu_remote::{filled, filled_text};
use crate::baidu_sync::or_other;
use crate::json::{
    field, fields_view, items_at, law_field_removal, law_field_update, lemma_array_view,
    lemma_object_view, list_view, text, text_at, with_field, without_field, Json, JsonView,
};
use crate::project::{
    extension_from_path, file_name_from_any_path, is_mask_image, last_path_name,
    normalized_path_key, package_extension, path_key, settled_name, supported_image,
};
use crate::season::copy_opt;
use crate::segments::{pad, padded};
use crate::session::opt_text;
use crate::text::{
    concat2, copy_text, digits_of, extend, extend_text, text_eq, texts, to_chars, to_text, trim,
    u64_digits,
};
use vstd::prelude::*;

verus! {

// ---------------------------------------------------------------------------
// Values

/// A text under a key, white space aside, where it is not blank.
pub open spec fn value_text(v: JsonView, key: Seq<char>) -> Option<Seq<char>> {
    filled(text_at(v, key))
}

/// A text under a key, white space aside, where it is not blank.
pub fn value_string(value: &Json, key: &str) -> (r: Option<String>)
    ensures
        opt_text(r) == value_text(value@, key@),
{
    let found = value.get_text(key);
    filled_text(&found)
}

/// The text under the first of two keys that has one.
pub open spec fn either_text(v: JsonView, first: Seq<char>, second: Seq<char>) -> Option<
    Seq<char>,
> {
    or_other(value_text(v, first), value_text(v, second))
}

fn either_string(value: &Json, first: &str, second: &str) -> (r: Option<String>)
    ensures
        opt_text(r) == either_text(value@, first@, second@),
{
    match value_string(value, first) {
        Some(s) => Some(s),
        None => value_string(value, second),
    }
}

// ---------------------------------------------------------------------------
// Pictures

/// A picture on the timeline of a project: where it is, the resource that it is, the name that
/// it has or would get, and the segments that show it.
pub struct ImageReference {
    pub path: String,
    pub resource_id: Option<String>,
    pub given_name: Option<String>,
    pub raw_name: String,
    pub segment_ids: Vec<String>,
}

/// A picture on the timeline of a project.
pub ghost struct ReferenceView {
    pub path: Seq<char>,
    pub resource_id: Option<Seq<char>>,
    pub given_name: Option<Seq<char>>,
    pub raw_name: Seq<char>,
    pub segment_ids: Seq<Seq<char>>,
}

impl View for ImageReference {
    type V = ReferenceView;

    open spec fn view(&self) -> ReferenceView {
        ReferenceView {
            path: self.path@,
            resource_id: opt_text(self.resource_id),
            given_name: opt_text(self.given_name),
            raw_name: self.raw_name@,
            segment_ids: texts(self.segment_ids@),
        }
    }
}

/// The views of a list of pictures.
pub open spec fn reference_views(v: Seq<ImageReference>) -> Seq<ReferenceView> {
    Seq::new(v.len(), |i: int| v[i]@)
}

/// Tells whether a resource is the picture with a key.
pub open spec fn resource_is(item: JsonView, key: Seq<char>) -> bool {
    either_text(item, "path"@, "previewPath"@) matches Some(path) && path_key(path) == key
}

/// The last resource that is the picture with a key.
pub open spec fn last_resource(list: Seq<JsonView>, key: Seq<char>) -> Option<JsonView>
    decreases list.len(),
{
    if list.len() == 0 {
        None
    } else if resource_is(list.last(), key) {
        Some(list.last())
    } else {
        last_resource(list.drop_last(), key)
    }
}

/// A text in a value that may be missing.
pub open spec fn opt_value_text(v: Option<JsonView>, key: Seq<char>) -> Option<Seq<char>> {
    match v {
        Some(item) => value_text(item, key),
        None => None,
    }
}

/// The position of the picture with a key.
pub open spec fn reference_index(refs: Seq<ReferenceView>, key: Seq<char>) -> int
    decreases refs.len(),
{
    if refs.len() == 0 || path_key(refs[0].path) == key {
        0
    } else {
        1 + reference_index(refs.drop_first(), key)
    }
}

/// The pictures with those of one more segment.
pub open spec fn with_segment(
    refs: Seq<ReferenceView>,
    segment: JsonView,
    resources: Seq<JsonView>,
) -> Seq<ReferenceView> {
    match either_text(segment, "imagePath"@, "imagePreviewPath"@) {
        None => refs,
        Some(path) => {
            let key = path_key(path);
            let at = reference_index(refs, key);
            let ids = match value_text(segment, "id"@) {
                Some(id) => seq![id],
                None => Seq::empty(),
            };
            let resource = last_resource(resources, key);
            if at < refs.len() {
                refs.update(
                    at,
                    ReferenceView { segment_ids: refs[at].segment_ids + ids, ..refs[at] },
                )
            } else {
                refs.push(
                    ReferenceView {
                        path,
                        resource_id: opt_value_text(resource, "id"@),
                        given_name: opt_value_text(resource, "name"@),
                        raw_name: last_path_name(path, "遮罩图片"@),
                        segment_ids: ids,
                    },
                )
            }
        },
    }
}

/// The pictures of some segments, each once.
pub open spec fn references(segments: Seq<JsonView>, resources: Seq<JsonView>) -> Seq<
    ReferenceView,
>
    decreases segments.len(),
{
    if segments.len() == 0 {
        Seq::empty()
    } else {
        with_segment(references(segments.drop_last(), resources), segments.last(), resources)
    }
}

/// The items under a key; none where there is no list.
pub open spec fn list_at(v: JsonView, key: Seq<char>) -> Seq<JsonView> {
    match items_at(v, key) {
        Some(list) => list,
        None => Seq::empty(),
    }
}

fn find_resource<'a>(list: &'a Vec<Json>, key: &str) -> (r: Option<&'a Json>)
    ensures
        match r {
            Some(item) => last_resource(list_view(list@), key@) == Some(item@),
            None => last_resource(list_view(list@), key@) is None,
        },
{
    let ghost all = list_view(list@);
    let mut n: usize = list.len();
    assert(all.take(all.len() as int) =~= all);
    while n > 0
        invariant
            n <= list@.len(),
            all == list_view(list@),
            last_resource(all.take(n as int), key@) == last_resource(all, key@),
        decreases n,
    {
        assert(all.take(n as int).drop_last() =~= all.take(n - 1));
        assert(all.take(n as int).last() == list@[n - 1]@);
        if let Some(path) = either_string(&list[n - 1], "path", "previewPath") {
            let k = normalized_path_key(path.as_str());
            if text_eq(k.as_str(), key) {
                return Some(&list[n - 1]);
            }
        }
        n -= 1;
    }
    assert(all.take(0) =~= Seq::<JsonView>::empty());
    None
}

fn find_reference(refs: &Vec<ImageReference>, key: &str) -> (r: usize)
    ensures
        r == reference_index(reference_views(refs@), key@),
        r <= refs@.len(),
{
    let ghost all = reference_views(refs@);
    let mut i: usize = 0;
    assert(all.skip(0) =~= all);
    while i < refs.len()
        invariant
            i <= refs@.len(),
            all == reference_views(refs@),
            reference_index(all, key@) == i + reference_index(all.skip(i as int), key@),
        decreases refs.len() - i,
    {
        assert(all.skip(i as int)[0] == refs@[i as int]@);
        assert(all.skip(i as int).drop_first() =~= all.skip(i + 1));
        let k = normalized_path_key(refs[i].path.as_str());
        if text_eq(k.as_str(), key) {
            return i;
        }
        i += 1;
    }
    assert(all.skip(i as int).len() == 0);
    i
}

fn add_segment(refs: &mut Vec<ImageReference>, segment: &Json, resources: &Vec<Json>)
    ensures
        reference_views(final(refs)@) == with_segment(
            reference_views(old(refs)@),
            segment@,
            list_view(resources@),
        ),
{
    let ghost before = reference_views(refs@);
    let path = match either_string(segment, "imagePath", "imagePreviewPath") {
        Some(path) => path,
        None => {
            return ;
        },
    };
    let key = normalized_path_key(path.as_str());
    let id = value_string(segment, "id");
    let at: usize = find_reference(refs, key.as_str());
    if at < refs.len() {
        assert(before[at as int] == refs@[at as int]@);
        if let Some(id) = id {
            let ghost ids = texts(refs@[at as int].segment_ids@);
            let ghost added = id@;
            refs[at].segment_ids.push(id);
            assert(texts(refs@[at as int].segment_ids@) =~= ids + seq![added]);
        } else {
            assert(before[at as int].segment_ids + Seq::<Seq<char>>::empty()
                =~= before[at as int].segment_ids);
        }
        assert(reference_views(refs@) =~= with_segment(before, segment@, list_view(resources@)));
        return ;
    }
    let mut segment_ids: Vec<String> = Vec::new();
    assert(texts(segment_ids@) =~= Seq::<Seq<char>>::empty());
    if let Some(id) = id {
        let ghost added = id@;
        segment_ids.push(id);
        assert(texts(segment_ids@) =~= seq![added]);
    }
    let (resource_id, given_name): (Option<String>, Option<String>) = match find_resource(
        resources,
        key.as_str(),
    ) {
        Some(item) => (value_string(item, "id"), value_string(item, "name")),
        None => (None, None),
    };
    let raw_name = file_name_from_any_path(path.as_str(), "遮罩图片");
    let reference = ImageReference { path, resource_id, given_name, raw_name, segment_ids };
    let ghost added = reference@;
    refs.push(reference);
    assert(reference_views(refs@) =~= before.push(added));
}

/// The pictures on the timeline of a project, each once, in the order in which they are shown.
pub fn image_references(editor_state: &Json) -> (r: Vec<ImageReference>)
    ensures
        reference_views(r@) == references(
            list_at(editor_state@, "segments"@),
            list_at(editor_state@, "resources"@),
        ),
{
    let none: Vec<Json> = Vec::new();
    assert(list_view(none@) =~= Seq::<JsonView>::empty());
    let segments: &Vec<Json> = match editor_state.get_array("segments") {
        Some(list) => list,
        None => &none,
    };
    let resources: &Vec<Json> = match editor_state.get_array("resources") {
        Some(list) => list,
        None => &none,
    };
    let ghost all = list_view(segments@);
    let mut out: Vec<ImageReference> = Vec::new();
    let mut i: usize = 0;
    assert(all.take(0) =~= Seq::<JsonView>::empty());
    assert(reference_views(out@) =~= Seq::<ReferenceView>::empty());
    while i < segments.len()
        invariant
            i <= segments@.len(),
            all == list_view(segments@),
            reference_views(out@) == references(all.take(i as int), list_view(resources@)),
        decreases segments.len() - i,
    {
        assert(all.take(i + 1).drop_last() =~= all.take(i as int));
        assert(all.take(i + 1).last() == segments@[i as int]@);
        add_segment(&mut out, &segments[i], resources);
        i += 1;
    }
    assert(all.take(i as int) =~= all);
    out
}

/// A picture that is packed up.
pub struct ImagePackageEntry {
    pub original_path: String,
    pub package_path: String,
    pub original_name: String,
    pub resource_id: Option<String>,
    pub segment_ids: Vec<String>,
    pub size_bytes: u64,
}

/// A picture that is packed up.
pub ghost struct EntryView {
    pub original_path: Seq<char>,
    pub package_path: Seq<char>,
    pub original_name: Seq<char>,
    pub resource_id: Option<Seq<char>>,
    pub segment_ids: Seq<Seq<char>>,
    pub size_bytes: u64,
}

impl View for ImagePackageEntry {
    type V = EntryView;

    open spec fn view(&self) -> EntryView {
        EntryView {
            original_path: self.original_path@,
            package_path: self.package_path@,
            original_name: self.original_name@,
            resource_id: opt_text(self.resource_id),
            segment_ids: texts(self.segment_ids@),
            size_bytes: self.size_bytes,
        }
    }
}

/// The views of a list of pictures that are packed up.
pub open spec fn image_views(v: Seq<ImagePackageEntry>) -> Seq<EntryView> {
    Seq::new(v.len(), |i: int| v[i]@)
}

/// What is known of the files of pictures: nothing where one is gone, else its size, and the
/// name that was made of its path.
pub open spec fn file_views(v: Seq<Option<(u64, String)>>) -> Seq<Option<(u64, Seq<char>)>> {
    Seq::new(
        v.len(),
        |i: int|
            match v[i] {
                Some(p) => Some((p.0, p.1@)),
                None => None,
            },
    )
}

/// The path of a picture in a package.
pub open spec fn mask_path(index: int, path: Seq<char>, backslash: bool) -> Seq<char> {
    "assets/masks/mask-"@ + padded(digits_of(index as nat), 3) + "."@ + package_extension(
        path,
        "png"@,
        backslash,
    )
}

/// A picture as it is packed up, or what is wrong with it.
pub open spec fn packed(
    r: ReferenceView,
    index: int,
    file: Option<(u64, Seq<char>)>,
    backslash: bool,
) -> Result<EntryView, Seq<char>> {
    match file {
        None => Err("时间轴遮罩图片不存在: "@ + r.path),
        Some((size_bytes, name)) => if !is_mask_image(r.path, backslash) {
            Err("时间轴遮罩图片格式不支持: "@ + r.path)
        } else {
            Ok(
                EntryView {
                    original_path: r.path,
                    package_path: mask_path(index, r.path, backslash),
                    original_name: match r.given_name {
                        Some(given) => given,
                        None => if trim(name).len() == 0 {
                            "遮罩图片"@
                        } else {
                            name
                        },
                    },
                    resource_id: r.resource_id,
                    segment_ids: r.segment_ids,
                    size_bytes,
                },
            )
        },
    }
}

/// Pictures as they are packed up, or what is wrong with the first that cannot be.
pub open spec fn all_packed(
    refs: Seq<ReferenceView>,
    files: Seq<Option<(u64, Seq<char>)>>,
    backslash: bool,
) -> Result<Seq<EntryView>, Seq<char>>
    decreases refs.len(),
{
    if refs.len() == 0 {
        Ok(Seq::empty())
    } else {
        match all_packed(refs.drop_last(), files, backslash) {
            Err(e) => Err(e),
            Ok(done) => match packed(refs.last(), refs.len() as int, files[refs.len() - 1], backslash) {
                Err(e) => Err(e),
                Ok(entry) => Ok(done.push(entry)),
            },
        }
    }
}

proof fn lemma_not_packed(
    refs: Seq<ReferenceView>,
    files: Seq<Option<(u64, Seq<char>)>>,
    k: int,
    e: Seq<char>,
    backslash: bool,
)
    requires
        0 <= k <= refs.len(),
        all_packed(refs.take(k), files, backslash) == Err::<Seq<EntryView>, Seq<char>>(e),
    ensures
        all_packed(refs, files, backslash) == Err::<Seq<EntryView>, Seq<char>>(e),
    decreases refs.len() - k,
{
    if k < refs.len() {
        assert(refs.take(k + 1).drop_last() =~= refs.take(k));
        lemma_not_packed(refs, files, k + 1, e, backslash);
    } else {
        assert(refs.take(k) =~= refs);
    }
}

pub fn copy_texts(v: &Vec<String>) -> (r: Vec<String>)
    ensures
        texts(r@) == texts(v@),
{
    let mut out: Vec<String> = Vec::new();
    let mut i: usize = 0;
    while i < v.len()
        invariant
            i <= v@.len(),
            out@.len() == i,
            forall|k: int| 0 <= k < i ==> (#[trigger] out@[k])@ == v@[k]@,
        decreases v.len() - i,
    {
        let ghost before = out@;
        out.push(copy_text(v[i].as_str()));
        assert forall|k: int| 0 <= k < i + 1 implies (#[trigger] out@[k])@ == v@[k]@ by {
            if k < i {
                assert(out@[k] == before[k]);
            }
        }
        i += 1;
    }
    assert(texts(out@) =~= texts(v@));
    out
}

/// Pictures as they are packed up, or what is wrong with the first that cannot be. `files` tells
/// of each picture its size and the name made of its path, where it is there.
/// `backslash` tells whether a backslash separates the parts of a path.
pub fn collect_used_image_entries(
    refs: &Vec<ImageReference>,
    files: &Vec<Option<(u64, String)>>,
    backslash: bool,
) -> (r: Result<Vec<ImagePackageEntry>, String>)
    requires
        files@.len() == refs@.len(),
    ensures
        match r {
            Ok(entries) => all_packed(reference_views(refs@), file_views(files@), backslash) == Ok::<
                Seq<EntryView>,
                Seq<char>,
            >(image_views(entries@)),
            Err(e) => all_packed(reference_views(refs@), file_views(files@), backslash) == Err::<
                Seq<EntryView>,
                Seq<char>,
            >(e@),
        },
{
    let ghost all = reference_views(refs@);
    let ghost fs = file_views(files@);
    let mut out: Vec<ImagePackageEntry> = Vec::new();
    let mut i: usize = 0;
    assert(all.take(0) =~= Seq::<ReferenceView>::empty());
    assert(image_views(out@) =~= Seq::<EntryView>::empty());
    while i < refs.len()
        invariant
            i <= refs@.len(),
            files@.len() == refs@.len(),
            all == reference_views(refs@),
            fs == file_views(files@),
            all_packed(all.take(i as int), fs, backslash) == Ok::<Seq<EntryView>, Seq<char>>(
                image_views(out@),
            ),
        decreases refs.len() - i,
    {
        assert(all.take(i + 1).drop_last() =~= all.take(i as int));
        assert(all.take(i + 1).last() == refs@[i as int]@);
        match &files[i] {
            None => {
                let e = concat2("时间轴遮罩图片不存在: ", refs[i].path.as_str());
                proof {
                    lemma_not_packed(all, fs, i + 1, e@, backslash);
                }
                return Err(e);
            },
            Some((size_bytes, name)) => {
                if !supported_image(refs[i].path.as_str(), backslash) {
                    let e = concat2("时间轴遮罩图片格式不支持: ", refs[i].path.as_str());
                    proof {
                        lemma_not_packed(all, fs, i + 1, e@, backslash);
                    }
                    return Err(e);
                }
                let number = pad(u64_digits(i as u64 + 1), 3);
                let ext = extension_from_path(refs[i].path.as_str(), "png", backslash);
                let mut package_path = to_chars("assets/masks/mask-");
                extend(&mut package_path, number.as_slice());
                extend_text(&mut package_path, ".");
                extend_text(&mut package_path, ext.as_str());
                let original_name = match &refs[i].given_name {
                    Some(given) => copy_text(given.as_str()),
                    None => settled_name(name.as_str(), "遮罩图片"),
                };
                let entry = ImagePackageEntry {
                    original_path: copy_text(refs[i].path.as_str()),
                    package_path: to_text(package_path.as_slice()),
                    original_name,
                    resource_id: copy_opt(&refs[i].resource_id),
                    segment_ids: copy_texts(&refs[i].segment_ids),
                    size_bytes: *size_bytes,
                };
                let ghost done = image_views(out@);
                let ghost added = entry@;
                out.push(entry);
                assert(image_views(out@) =~= done.push(added));
            },
        }
        i += 1;
    }
    assert(all.take(i as int) =~= all);
    Ok(out)
}

// ---------------------------------------------------------------------------
// The editor's state in a package

/// The path in the package of the picture with a key: that of the last one that is it.
pub open spec fn packed_path(entries: Seq<EntryView>, key: Seq<char>) -> Option<Seq<char>>
    decreases entries.len(),
{
    if entries.len() == 0 {
        None
    } else if path_key(entries.last().original_path) == key {
        Some(entries.last().package_path)
    } else {
        packed_path(entries.drop_last(), key)
    }
}

fn find_packed_path(entries: &Vec<ImagePackageEntry>, key: &str) -> (r: Option<String>)
    ensures
        opt_text(r) == packed_path(image_views(entries@), key@),
{
    let ghost all = image_views(entries@);
    let mut n: usize = entries.len();
    assert(all.take(all.len() as int) =~= all);
    while n > 0
        invariant
            n <= entries@.len(),
            all == image_views(entries@),
            packed_path(all.take(n as int), key@) == packed_path(all, key@),
        decreases n,
    {
        assert(all.take(n as int).drop_last() =~= all.take(n - 1));
        assert(all.take(n as int).last() == entries@[n - 1]@);
        let k = normalized_path_key(entries[n - 1].original_path.as_str());
        if text_eq(k.as_str(), key) {
            return Some(copy_text(entries[n - 1].package_path.as_str()));
        }
        n -= 1;
    }
    assert(all.take(0) =~= Seq::<EntryView>::empty());
    None
}

/// The path in the package of the picture that a value shows.
pub open spec fn shown_path(
    v: JsonView,
    first: Seq<char>,
    second: Seq<char>,
    entries: Seq<EntryView>,
) -> Option<Seq<char>> {
    match either_text(v, first, second) {
        Some(path) => packed_path(entries, path_key(path)),
        None => None,
    }
}

fn find_shown_path(value: &Json, first: &str, second: &str, entries: &Vec<ImagePackageEntry>) -> (r:
    Option<String>)
    ensures
        opt_text(r) == shown_path(value@, first@, second@, image_views(entries@)),
{
    match either_string(value, first, second) {
        Some(path) => {
            let key = normalized_path_key(path.as_str());
            find_packed_path(entries, key.as_str())
        },
        None => None,
    }
}

/// A resource whose picture is in the package.
pub open spec fn packed_resource(item: JsonView, path: Seq<char>) -> JsonView {
    without_field(
        with_field(
            with_field(item, "path"@, JsonView::Str(path)),
            "previewPath"@,
            JsonView::Str(path),
        ),
        "imageSrc"@,
    )
}

/// The resources whose pictures are in the package.
pub open spec fn kept_resources(list: Seq<JsonView>, entries: Seq<EntryView>) -> Seq<JsonView>
    decreases list.len(),
{
    if list.len() == 0 {
        Seq::empty()
    } else {
        match shown_path(list.last(), "path"@, "previewPath"@, entries) {
            Some(path) => kept_resources(list.drop_last(), entries).push(
                packed_resource(list.last(), path),
            ),
            None => kept_resources(list.drop_last(), entries),
        }
    }
}

/// Tells whether a resource stands for a path in the package.
pub open spec fn is_represented(
    list: Seq<JsonView>,
    entries: Seq<EntryView>,
    path: Seq<char>,
) -> bool {
    exists|i: int|
        0 <= i < list.len() && #[trigger] shown_path(list[i], "path"@, "previewPath"@, entries)
            == Some(path)
}

/// The resource that is made for a picture that none stands for.
pub open spec fn new_resource(entry: EntryView, index: int) -> JsonView {
    JsonView::Object(
        seq![
            (
                "id"@,
                JsonView::Str(
                    match entry.resource_id {
                        Some(id) => id,
                        None => "resource-packaged-"@ + digits_of(index as nat),
                    },
                ),
            ),
            ("path"@, JsonView::Str(entry.package_path)),
            ("previewPath"@, JsonView::Str(entry.package_path)),
            ("name"@, JsonView::Str(entry.original_name)),
            ("previewError"@, JsonView::Str(""@)),
        ],
    )
}

/// The resources that are made for the first pictures that none stands for.
pub open spec fn new_resources(list: Seq<JsonView>, entries: Seq<EntryView>, n: int) -> Seq<
    JsonView,
>
    decreases n,
{
    if n <= 0 {
        Seq::empty()
    } else {
        let rest = new_resources(list, entries, n - 1);
        if is_represented(list, entries, entries[n - 1].package_path) {
            rest
        } else {
            rest.push(new_resource(entries[n - 1], n))
        }
    }
}

/// The resources of a project in its package: only pictures of the timeline, and all of them.
pub open spec fn packed_resources(list: Seq<JsonView>, entries: Seq<EntryView>) -> Seq<JsonView> {
    kept_resources(list, entries) + new_resources(list, entries, entries.len() as int)
}

/// A segment in a package.
pub open spec fn packed_segment(segment: JsonView, entries: Seq<EntryView>) -> JsonView {
    without_field(
        match shown_path(segment, "imagePath"@, "imagePreviewPath"@, entries) {
            Some(path) => with_field(
                with_field(segment, "imagePath"@, JsonView::Str(path)),
                "imagePreviewPath"@,
                JsonView::Str(path),
            ),
            None => segment,
        },
        "imageSrc"@,
    )
}

/// The editor's state in a package.
pub open spec fn packed_state(
    state: JsonView,
    source: Seq<char>,
    target: Seq<char>,
    entries: Seq<EntryView>,
) -> JsonView {
    let base = if state is Object {
        state
    } else {
        JsonView::Object(Seq::empty())
    };
    let placed = with_field(
        with_field(base, "sourcePath"@, JsonView::Str(source)),
        "targetPath"@,
        JsonView::Str(target),
    );
    let stocked = match items_at(placed, "resources"@) {
        Some(list) => with_field(
            placed,
            "resources"@,
            JsonView::Array(packed_resources(list, entries)),
        ),
        None => if entries.len() > 0 {
            with_field(
                placed,
                "resources"@,
                JsonView::Array(packed_resources(Seq::empty(), entries)),
            )
        } else {
            placed
        },
    };
    match items_at(stocked, "segments"@) {
        Some(list) => with_field(
            stocked,
            "segments"@,
            JsonView::Array(Seq::new(list.len(), |i: int| packed_segment(list[i], entries))),
        ),
        None => stocked,
    }
}

fn make_resource(entry: &ImagePackageEntry, index: u64) -> (r: Json)
    ensures
        r@ == new_resource(entry@, index as int),
{
    let id = match &entry.resource_id {
        Some(id) => copy_text(id.as_str()),
        None => {
            let number = u64_digits(index);
            let mut out = to_chars("resource-packaged-");
            extend(&mut out, number.as_slice());
            to_text(out.as_slice())
        },
    };
    let mut fields: Vec<(String, Json)> = Vec::new();
    fields.push((copy_text("id"), Json::Str(id)));
    fields.push((copy_text("path"), Json::Str(copy_text(entry.package_path.as_str()))));
    fields.push((copy_text("previewPath"), Json::Str(copy_text(entry.package_path.as_str()))));
    fields.push((copy_text("name"), Json::Str(copy_text(entry.original_name.as_str()))));
    fields.push((copy_text("previewError"), Json::Str(copy_text(""))));
    proof {
        lemma_object_view(fields);
        assert(fields_view(fields@) =~= new_resource(entry@, index as int)->Object_0);
    }
    Json::Object(fields)
}

fn stands_for(list: &Vec<Json>, entries: &Vec<ImagePackageEntry>, path: &str) -> (r: bool)
    ensures
        r == is_represented(list_view(list@), image_views(entries@), path@),
{
    let ghost all = list_view(list@);
    let ghost es = image_views(entries@);
    let mut i: usize = 0;
    while i < list.len()
        invariant
            i <= list@.len(),
            all == list_view(list@),
            es == image_views(entries@),
            forall|k: int|
                0 <= k < i ==> #[trigger] shown_path(all[k], "path"@, "previewPath"@, es) != Some(
                    path@,
                ),
        decreases list.len() - i,
    {
        assert(all[i as int] == list@[i as int]@);
        let found = find_shown_path(&list[i], "path", "previewPath", entries);
        if let Some(p) = found {
            if text_eq(p.as_str(), path) {
                assert(shown_path(all[i as int], "path"@, "previewPath"@, es) == Some(path@));
                return true;
            }
        }
        i += 1;
    }
    false
}

fn pack_resources(list: &Vec<Json>, entries: &Vec<ImagePackageEntry>) -> (r: Vec<Json>)
    ensures
        list_view(r@) == packed_resources(list_view(list@), image_views(entries@)),
{
    let ghost all = list_view(list@);
    let ghost es = image_views(entries@);
    let mut out: Vec<Json> = Vec::new();
    let mut i: usize = 0;
    assert(all.take(0) =~= Seq::<JsonView>::empty());
    assert(list_view(out@) =~= Seq::<JsonView>::empty());
    while i < list.len()
        invariant
            i <= list@.len(),
            all == list_view(list@),
            es == image_views(entries@),
            list_view(out@) == kept_resources(all.take(i as int), es),
        decreases list.len() - i,
    {
        assert(all.take(i + 1).drop_last() =~= all.take(i as int));
        assert(all.take(i + 1).last() == list@[i as int]@);
        if let Some(path) = find_shown_path(&list[i], "path", "previewPath", entries) {
            let mut resource = list[i].copy();
            resource.set("path", Json::Str(copy_text(path.as_str())));
            resource.set("previewPath", Json::Str(copy_text(path.as_str())));
            resource.unset("imageSrc");
            let ghost done = list_view(out@);
            let ghost added = resource@;
            out.push(resource);
            assert(list_view(out@) =~= done.push(added));
        }
        i += 1;
    }
    assert(all.take(i as int) =~= all);
    let ghost kept = list_view(out@);
    let mut n: usize = 0;
    assert(kept + new_resources(all, es, 0) =~= kept);
    while n < entries.len()
        invariant
            n <= entries@.len(),
            all == list_view(list@),
            es == image_views(entries@),
            list_view(out@) == kept + new_resources(all, es, n as int),
        decreases entries.len() - n,
    {
        assert(es[n as int] == entries@[n as int]@);
        if !stands_for(list, entries, entries[n].package_path.as_str()) {
            let resource = make_resource(&entries[n], n as u64 + 1);
            let ghost done = list_view(out@);
            let ghost added = resource@;
            out.push(resource);
            assert(list_view(out@) =~= done.push(added));
            assert(done.push(added) =~= kept + new_resources(all, es, n as int).push(added));
        }
        n += 1;
    }
    out
}

fn pack_segments(list: &Vec<Json>, entries: &Vec<ImagePackageEntry>) -> (r: Vec<Json>)
    ensures
        list_view(r@) == Seq::new(
            list@.len(),
            |i: int| packed_segment(list_view(list@)[i], image_views(entries@)),
        ),
{
    let ghost all = list_view(list@);
    let ghost es = image_views(entries@);
    let mut out: Vec<Json> = Vec::new();
    let mut i: usize = 0;
    while i < list.len()
        invariant
            i <= list@.len(),
            all == list_view(list@),
            es == image_views(entries@),
            list_view(out@) =~= Seq::new(i as nat, |k: int| packed_segment(all[k], es)),
        decreases list.len() - i,
    {
        assert(all[i as int] == list@[i as int]@);
        let mut segment = list[i].copy();
        if let Some(path) = find_shown_path(&list[i], "imagePath", "imagePreviewPath", entries) {
            segment.set("imagePath", Json::Str(copy_text(path.as_str())));
            segment.set("imagePreviewPath", Json::Str(path));
        }
        segment.unset("imageSrc");
        let ghost done = list_view(out@);
        let ghost added = segment@;
        out.push(segment);
        assert(list_view(out@) =~= done.push(added));
        i += 1;
    }
    out
}

/// The editor's state in a package: its paths are those in the package, and it has the pictures
/// of the timeline only.
pub fn rewrite_editor_state_for_export(
    editor_state: Json,
    source_path: &str,
    target_path: &str,
    image_entries: &Vec<ImagePackageEntry>,
) -> (r: Json)
    ensures
        r@ == packed_state(
            editor_state@,
            source_path@,
            target_path@,
            image_views(image_entries@),
        ),
{
    let ghost es = image_views(image_entries@);
    assert(es.len() == image_entries@.len());
    let mut state = match editor_state {
        Json::Object(fields) => Json::Object(fields),
        _ => {
            let none: Vec<(String, Json)> = Vec::new();
            proof {
                lemma_object_view(none);
                assert(fields_view(none@) =~= Seq::<(Seq<char>, JsonView)>::empty());
            }
            Json::Object(none)
        },
    };
    state.set("sourcePath", Json::Str(copy_text(source_path)));
    state.set("targetPath", Json::Str(copy_text(target_path)));
    let resources: Option<Vec<Json>> = match state.get_array("resources") {
        Some(list) => Some(pack_resources(list, image_entries)),
        None => {
            if image_entries.len() > 0 {
                let none: Vec<Json> = Vec::new();
                assert(list_view(none@) =~= Seq::<JsonView>::empty());
                Some(pack_resources(&none, image_entries))
            } else {
                None
            }
        },
    };
    if let Some(list) = resources {
        proof {
            lemma_array_view(list);
        }
        state.set("resources", Json::Array(list));
    }
    let segments: Option<Vec<Json>> = match state.get_array("segments") {
        Some(list) => Some(pack_segments(list, image_entries)),
        None => None,
    };
    if let Some(list) = segments {
        proof {
            lemma_array_view(list);
        }
        state.set("segments", Json::Array(list));
    }
    state
}

/// The resources in a package are pictures of the timeline only: each has the path of one that
/// is packed up.
pub proof fn law_only_used_resources(list: Seq<JsonView>, entries: Seq<EntryView>, k: int)
    requires
        0 <= k < packed_resources(list, entries).len(),
    ensures
        exists|j: int|
            0 <= j < entries.len() && text_at(packed_resources(list, entries)[k], "path"@) == Some(
                (#[trigger] entries[j]).package_path,
            ),
{
    let kept = kept_resources(list, entries);
    if k < kept.len() {
        lemma_kept_resource(list, entries, k);
        assert(packed_resources(list, entries)[k] == kept[k]);
    } else {
        lemma_new_resource(list, entries, entries.len() as int, k - kept.len());
    }
}

proof fn lemma_kept_resource(list: Seq<JsonView>, entries: Seq<EntryView>, k: int)
    requires
        0 <= k < kept_resources(list, entries).len(),
    ensures
        exists|j: int|
            0 <= j < entries.len() && text_at(kept_resources(list, entries)[k], "path"@) == Some(
                (#[trigger] entries[j]).package_path,
            ),
    decreases list.len(),
{
    let rest = kept_resources(list.drop_last(), entries);
    let all = kept_resources(list, entries);
    if k < rest.len() {
        lemma_kept_resource(list.drop_last(), entries, k);
        assert(all[k] == rest[k]);
    } else {
        let item = list.last();
        let path = shown_path(item, "path"@, "previewPath"@, entries)->0;
        let key = path_key(either_text(item, "path"@, "previewPath"@)->0);
        lemma_packed_path(entries, key);
        lemma_path_keys_differ();
        assert(item is Object);
        let a = with_field(item, "path"@, JsonView::Str(path));
        let b = with_field(a, "previewPath"@, JsonView::Str(path));
        law_field_update(item, "path"@, JsonView::Str(path), "previewPath"@);
        law_field_update(a, "previewPath"@, JsonView::Str(path), "path"@);
        law_field_removal(b, "imageSrc"@, "path"@);
        assert(text_at(all[k], "path"@) == Some(path));
    }
}

proof fn lemma_path_keys_differ()
    ensures
        "path"@ != "previewPath"@,
        "path"@ != "imageSrc"@,
        "path"@ != "id"@,
        "previewPath"@ != "id"@,
        "previewPath"@ != "imageSrc"@,
{
    reveal_strlit("path");
    reveal_strlit("previewPath");
    reveal_strlit("imageSrc");
    reveal_strlit("id");
    assert("path"@.len() == 4 && "previewPath"@.len() == 11 && "imageSrc"@.len() == 8 && "id"@.len()
        == 2);
}

pub proof fn lemma_packed_path(entries: Seq<EntryView>, key: Seq<char>)
    ensures
        packed_path(entries, key) matches Some(path) ==> exists|j: int|
            0 <= j < entries.len() && (#[trigger] entries[j]).package_path == path,
    decreases entries.len(),
{
    if entries.len() > 0 {
        if path_key(entries.last().original_path) == key {
            assert(entries[entries.len() - 1].package_path == packed_path(entries, key)->0);
        } else {
            lemma_packed_path(entries.drop_last(), key);
            if let Some(path) = packed_path(entries, key) {
                let rest = entries.drop_last();
                let j = choose|j: int|
                    0 <= j < rest.len() && (#[trigger] rest[j]).package_path == path;
                assert(entries[j] == rest[j]);
            }
        }
    }
}

proof fn lemma_new_resource(list: Seq<JsonView>, entries: Seq<EntryView>, n: int, k: int)
    requires
        0 <= n <= entries.len(),
        0 <= k < new_resources(list, entries, n).len(),
    ensures
        exists|j: int|
            0 <= j < entries.len() && text_at(new_resources(list, entries, n)[k], "path"@) == Some(
                (#[trigger] entries[j]).package_path,
            ),
    decreases n,
{
    let rest = new_resources(list, entries, n - 1);
    let all = new_resources(list, entries, n);
    if k < rest.len() {
        lemma_new_resource(list, entries, n - 1, k);
        assert(all[k] == rest[k]);
    } else {
        let entry = entries[n - 1];
        let r = new_resource(entry, n);
        lemma_path_keys_differ();
        let fields = r->Object_0;
        assert(fields[0].0 == "id"@);
        assert(fields.drop_first()[0] == fields[1]);
        reveal_with_fuel(crate::json::lookup, 3);
        assert(field(r, "path"@) == Some(fields[1].1));
        assert(text_at(all[k], "path"@) == Some(entry.package_path));
    }
}

/// The two paths of a resource in a package are the same, and are those of a picture that is
/// packed up.
pub proof fn lemma_resource_paths(list: Seq<JsonView>, entries: Seq<EntryView>, k: int)
    requires
        0 <= k < packed_resources(list, entries).len(),
    ensures
        packed_resources(list, entries)[k] is Object,
        text_at(packed_resources(list, entries)[k], "path"@) is Some,
        text_at(packed_resources(list, entries)[k], "previewPath"@) == text_at(
            packed_resources(list, entries)[k],
            "path"@,
        ),
        exists|j: int|
            0 <= j < entries.len() && (#[trigger] entries[j]).package_path == text_at(
                packed_resources(list, entries)[k],
                "path"@,
            )->0,
{
    law_only_used_resources(list, entries, k);
    let kept = kept_resources(list, entries);
    if k < kept.len() {
        lemma_kept_paths(list, entries, k);
        assert(packed_resources(list, entries)[k] == kept[k]);
    } else {
        lemma_new_paths(list, entries, entries.len() as int, k - kept.len());
    }
}

proof fn lemma_kept_paths(list: Seq<JsonView>, entries: Seq<EntryView>, k: int)
    requires
        0 <= k < kept_resources(list, entries).len(),
    ensures
        kept_resources(list, entries)[k] is Object,
        text_at(kept_resources(list, entries)[k], "previewPath"@) == text_at(
            kept_resources(list, entries)[k],
            "path"@,
        ),
    decreases list.len(),
{
    let rest = kept_resources(list.drop_last(), entries);
    let all = kept_resources(list, entries);
    if k < rest.len() {
        lemma_kept_paths(list.drop_last(), entries, k);
        assert(all[k] == rest[k]);
    } else {
        let item = list.last();
        let p = JsonView::Str(shown_path(item, "path"@, "previewPath"@, entries)->0);
        lemma_path_keys_differ();
        let a = with_field(item, "path"@, p);
        let b = with_field(a, "previewPath"@, p);
        law_field_update(item, "path"@, p, "previewPath"@);
        law_field_update(a, "previewPath"@, p, "path"@);
        law_field_removal(b, "imageSrc"@, "path"@);
        law_field_removal(b, "imageSrc"@, "previewPath"@);
    }
}

proof fn lemma_new_paths(list: Seq<JsonView>, entries: Seq<EntryView>, n: int, k: int)
    requires
        0 <= n <= entries.len(),
        0 <= k < new_resources(list, entries, n).len(),
    ensures
        new_resources(list, entries, n)[k] is Object,
        text_at(new_resources(list, entries, n)[k], "previewPath"@) == text_at(
            new_resources(list, entries, n)[k],
            "path"@,
        ),
    decreases n,
{
    let rest = new_resources(list, entries, n - 1);
    let all = new_resources(list, entries, n);
    if k < rest.len() {
        lemma_new_paths(list, entries, n - 1, k);
        assert(all[k] == rest[k]);
    } else {
        let r = new_resource(entries[n - 1], n);
        lemma_path_keys_differ();
        let fields = r->Object_0;
        assert(fields.drop_first()[0] == fields[1]);
        assert(fields.drop_first().drop_first()[0] == fields[2]);
        reveal_with_fuel(crate::json::lookup, 4);
        assert(field(r, "path"@) == Some(fields[1].1));
        assert(field(r, "previewPath"@) == Some(fields[2].1));
    }
}

// ---------------------------------------------------------------------------
// What a package holds of its project

proof fn lemma_reference_index(refs: Seq<ReferenceView>, key: Seq<char>)
    ensures
        0 <= reference_index(refs, key) <= refs.len(),
        reference_index(refs, key) < refs.len() ==> path_key(refs[reference_index(refs, key)].path)
            == key,
        forall|k: int|
            0 <= k < reference_index(refs, key) ==> path_key((#[trigger] refs[k]).path) != key,
    decreases refs.len(),
{
    if refs.len() > 0 && path_key(refs[0].path) != key {
        let rest = refs.drop_first();
        lemma_reference_index(rest, key);
        let i = reference_index(rest, key);
        if i < rest.len() {
            assert(rest[i] == refs[i + 1]);
        }
        assert forall|k: int| 0 <= k < reference_index(refs, key) implies path_key(
            (#[trigger] refs[k]).path,
        ) != key by {
            if k > 0 {
                assert(rest[k - 1] == refs[k]);
            }
        }
    }
}

/// Every picture of the timeline is referenced once, and the reference names each segment that
/// shows it.
pub proof fn law_every_picture_referenced(segments: Seq<JsonView>, resources: Seq<JsonView>, i: int)
    requires
        0 <= i < segments.len(),
        either_text(segments[i], "imagePath"@, "imagePreviewPath"@) is Some,
    ensures
        ({
            let refs = references(segments, resources);
            let key = path_key(either_text(segments[i], "imagePath"@, "imagePreviewPath"@)->0);
            let at = reference_index(refs, key);
            &&& 0 <= at < refs.len()
            &&& path_key(refs[at].path) == key
            &&& value_text(segments[i], "id"@) is Some ==> refs[at].segment_ids.contains(
                value_text(segments[i], "id"@)->0,
            )
        }),
    decreases segments.len(),
{
    let rest = segments.drop_last();
    let n = segments.len() - 1;
    let before = references(rest, resources);
    let after = references(segments, resources);
    let last = segments.last();
    assert(segments[n] == last);
    let key = path_key(either_text(segments[i], "imagePath"@, "imagePreviewPath"@)->0);
    let at = reference_index(before, key);
    lemma_reference_index(before, key);
    lemma_reference_index(after, key);
    let shown = either_text(last, "imagePath"@, "imagePreviewPath"@);
    if i < n {
        assert(rest[i] == segments[i]);
        law_every_picture_referenced(rest, resources, i);
        if shown is Some {
            let other = path_key(shown->0);
            lemma_reference_index(before, other);
            let o = reference_index(before, other);
            assert(path_key(after[at].path) == key);
            assert forall|k: int| 0 <= k < at implies path_key((#[trigger] after[k]).path) != key by {
                assert(path_key(before[k].path) != key);
            }
            let now = reference_index(after, key);
            assert(now == at) by {
                if now < at {
                    assert(path_key(after[now].path) != key);
                }
                if at < now {
                    assert(path_key(after[at].path) != key);
                }
            }
            if o == at && o < before.len() && value_text(segments[i], "id"@) is Some {
                let id = value_text(segments[i], "id"@)->0;
                let old_ids = before[at].segment_ids;
                let j = choose|j: int| 0 <= j < old_ids.len() && old_ids[j] == id;
                assert(after[at].segment_ids[j] == id);
            }
        }
    } else {
        let ids = after[if at < before.len() {
            at
        } else {
            before.len() as int
        }].segment_ids;
        let place = if at < before.len() {
            at
        } else {
            before.len() as int
        };
        assert(path_key(after[place].path) == key);
        assert forall|k: int| 0 <= k < place implies path_key((#[trigger] after[k]).path) != key by {
            assert(after[k] == before[k]);
            assert(path_key(before[k].path) != key);
        }
        let now = reference_index(after, key);
        assert(now == place) by {
            if now < place {
                assert(path_key(after[now].path) != key);
            }
            if place < now {
                assert(path_key(after[place].path) != key);
            }
        }
        if value_text(last, "id"@) is Some {
            assert(ids[ids.len() - 1] == value_text(last, "id"@)->0);
        }
    }
}

/// No picture is referenced twice.
pub proof fn law_pictures_referenced_once(
    segments: Seq<JsonView>,
    resources: Seq<JsonView>,
    i: int,
    j: int,
)
    requires
        0 <= i < j < references(segments, resources).len(),
    ensures
        path_key(references(segments, resources)[i].path) != path_key(
            references(segments, resources)[j].path,
        ),
    decreases segments.len(),
{
    let rest = segments.drop_last();
    let before = references(rest, resources);
    let shown = either_text(segments.last(), "imagePath"@, "imagePreviewPath"@);
    if shown is Some {
        lemma_reference_index(before, path_key(shown->0));
    }
    if j < before.len() {
        law_pictures_referenced_once(rest, resources, i, j);
    }
}

/// What a resource tells of a picture goes with it: that of the last one of its path.
pub proof fn law_resource_tells_picture(list: Seq<JsonView>, key: Seq<char>, i: int)
    requires
        0 <= i < list.len(),
        resource_is(list[i], key),
        forall|k: int| i < k < list.len() ==> !resource_is(#[trigger] list[k], key),
    ensures
        last_resource(list, key) == Some(list[i]),
    decreases list.len(),
{
    let n = list.len() - 1;
    if i < n {
        assert(!resource_is(list[n], key));
        let rest = list.drop_last();
        assert(rest[i] == list[i]);
        assert forall|k: int| i < k < rest.len() implies !resource_is(#[trigger] rest[k], key) by {
            assert(rest[k] == list[k]);
        }
        law_resource_tells_picture(rest, key, i);
    }
}

/// A picture that is new to the list comes with its path, its own name, and what its resource
/// tells.
pub proof fn law_new_picture(segment: JsonView, resources: Seq<JsonView>, resource: JsonView)
    requires
        either_text(segment, "imagePath"@, "imagePreviewPath"@) is Some,
        last_resource(
            resources,
            path_key(either_text(segment, "imagePath"@, "imagePreviewPath"@)->0),
        ) == Some(resource),
        value_text(segment, "id"@) is Some,
    ensures
        with_segment(Seq::empty(), segment, resources) == seq![
            ReferenceView {
                path: either_text(segment, "imagePath"@, "imagePreviewPath"@)->0,
                resource_id: value_text(resource, "id"@),
                given_name: value_text(resource, "name"@),
                raw_name: last_path_name(
                    either_text(segment, "imagePath"@, "imagePreviewPath"@)->0,
                    "遮罩图片"@,
                ),
                segment_ids: seq![value_text(segment, "id"@)->0],
            },
        ],
{
    let none = Seq::<ReferenceView>::empty();
    assert(with_segment(none, segment, resources) =~= with_segment(none, segment, resources));
    let key = path_key(either_text(segment, "imagePath"@, "imagePreviewPath"@)->0);
    assert(reference_index(none, key) == 0);
    assert(with_segment(none, segment, resources)[0].segment_ids =~= seq![
        value_text(segment, "id"@)->0,
    ]);
}

/// Each reference is packed in its place, under its number, with its file; a package is made only
/// where all can be.
pub proof fn law_every_picture_packed(
    refs: Seq<ReferenceView>,
    files: Seq<Option<(u64, Seq<char>)>>,
    backslash: bool,
    i: int,
)
    requires
        0 <= i < refs.len() <= files.len(),
        all_packed(refs, files, backslash) is Ok,
    ensures
        ({
            let entries = all_packed(refs, files, backslash)->Ok_0;
            &&& entries.len() == refs.len()
            &&& packed(refs[i], i + 1, files[i], backslash) == Ok::<EntryView, Seq<char>>(
                entries[i],
            )
        }),
    decreases refs.len(),
{
    let rest = refs.drop_last();
    let n = refs.len() - 1;
    lemma_packed_len(rest, files, backslash);
    if i < n {
        assert(rest[i] == refs[i]);
        law_every_picture_packed(rest, files, backslash, i);
    }
}

proof fn lemma_packed_len(
    refs: Seq<ReferenceView>,
    files: Seq<Option<(u64, Seq<char>)>>,
    backslash: bool,
)
    ensures
        all_packed(refs, files, backslash) is Ok ==> all_packed(
            refs,
            files,
            backslash,
        )->Ok_0.len() == refs.len(),
    decreases refs.len(),
{
    if refs.len() > 0 {
        lemma_packed_len(refs.drop_last(), files, backslash);
    }
}

/// What is packed of a picture is its file under the name of its number, with the path that it had,
/// its name, its segments and its size.
pub proof fn law_picture_packed_as_is(
    r: ReferenceView,
    index: int,
    size: u64,
    name: Seq<char>,
    backslash: bool,
)
    ensures
        packed(r, index, None, backslash) == Err::<EntryView, Seq<char>>(
            "时间轴遮罩图片不存在: "@ + r.path,
        ),
        !is_mask_image(r.path, backslash) ==> packed(r, index, Some((size, name)), backslash)
            == Err::<EntryView, Seq<char>>("时间轴遮罩图片格式不支持: "@ + r.path),
        is_mask_image(r.path, backslash) ==> packed(r, index, Some((size, name)), backslash) is Ok
            && ({
            let e = packed(r, index, Some((size, name)), backslash)->Ok_0;
            &&& e.original_path == r.path
            &&& e.resource_id == r.resource_id
            &&& e.segment_ids == r.segment_ids
            &&& e.size_bytes == size
            &&& e.package_path == "assets/masks/mask-"@ + padded(digits_of(index as nat), 3) + "."@
                + package_extension(r.path, "png"@, backslash)
            &&& r.given_name is Some ==> e.original_name == r.given_name->0
            &&& r.given_name is None && trim(name).len() > 0 ==> e.original_name == name
        }),
{
}

/// A resource of a picture that is packed stays, with the path in the package; others go.
pub proof fn law_used_resource_stays(list: Seq<JsonView>, item: JsonView, entries: Seq<EntryView>)
    requires
        item is Object,
    ensures
        ({
            let shown = either_text(item, "path"@, "previewPath"@);
            let there = shown is Some && packed_path(entries, path_key(shown->0)) is Some;
            &&& there ==> ({
                let kept = kept_resources(list.push(item), entries);
                let path = packed_path(entries, path_key(shown->0))->0;
                &&& kept.len() == kept_resources(list, entries).len() + 1
                &&& text_at(kept.last(), "path"@) == Some(path)
                &&& text_at(kept.last(), "previewPath"@) == Some(path)
            })
            &&& !there ==> kept_resources(list.push(item), entries) == kept_resources(list, entries)
        }),
{
    assert(list.push(item).drop_last() =~= list);
    let shown = either_text(item, "path"@, "previewPath"@);
    if shown is Some && packed_path(entries, path_key(shown->0)) is Some {
        let path = packed_path(entries, path_key(shown->0))->0;
        reveal_strlit("path");
        reveal_strlit("previewPath");
        reveal_strlit("imageSrc");
        assert("path"@.len() == 4 && "previewPath"@.len() == 11 && "imageSrc"@.len() == 8);
        let once = with_field(item, "path"@, JsonView::Str(path));
        let twice = with_field(once, "previewPath"@, JsonView::Str(path));
        law_field_update(item, "path"@, JsonView::Str(path), "previewPath"@);
        law_field_update(once, "previewPath"@, JsonView::Str(path), "path"@);
        law_field_removal(twice, "imageSrc"@, "path"@);
        law_field_removal(twice, "imageSrc"@, "previewPath"@);
    }
}

/// Every packed picture has a resource in the package.
pub proof fn law_every_entry_has_resource(list: Seq<JsonView>, entries: Seq<EntryView>, j: int)
    requires
        0 <= j < entries.len(),
        forall|i: int| 0 <= i < list.len() ==> (#[trigger] list[i]) is Object,
    ensures
        is_represented(list, entries, entries[j].package_path) || exists|k: int|
            0 <= k < new_resources(list, entries, entries.len() as int).len() && text_at(
                #[trigger] new_resources(list, entries, entries.len() as int)[k],
                "path"@,
            ) == Some(entries[j].package_path),
{
    if !is_represented(list, entries, entries[j].package_path) {
        lemma_resource_added(list, entries, entries.len() as int, j);
    }
}

proof fn lemma_resource_added(list: Seq<JsonView>, entries: Seq<EntryView>, n: int, j: int)
    requires
        0 <= j < n <= entries.len(),
        !is_represented(list, entries, entries[j].package_path),
    ensures
        exists|k: int|
            0 <= k < new_resources(list, entries, n).len() && text_at(
                #[trigger] new_resources(list, entries, n)[k],
                "path"@,
            ) == Some(entries[j].package_path),
    decreases n,
{
    let before = new_resources(list, entries, n - 1);
    let after = new_resources(list, entries, n);
    if j < n - 1 {
        lemma_resource_added(list, entries, n - 1, j);
        let k = choose|k: int|
            0 <= k < before.len() && text_at(#[trigger] before[k], "path"@) == Some(
                entries[j].package_path,
            );
        assert(after[k] == before[k]);
    } else {
        let last = new_resource(entries[j], n);
        assert(after[before.len() as int] == last);
        reveal_strlit("id");
        reveal_strlit("path");
        assert("id"@.len() == 2 && "path"@.len() == 4);
        let fields = last->Object_0;
        assert(fields[0].0 == "id"@ && fields[1].0 == "path"@);
        crate::json::lemma_field_at(fields, 1);
    }
}

/// A segment whose picture is packed shows it by the path in the package, and every other stays as
/// it is; neither keeps what was loaded of it.
pub proof fn law_segment_shows_packed_picture(
    segment: JsonView,
    entries: Seq<EntryView>,
    key: Seq<char>,
)
    requires
        segment is Object,
        key != "imageSrc"@,
    ensures
        ({
            let shown = either_text(segment, "imagePath"@, "imagePreviewPath"@);
            let there = shown is Some && packed_path(entries, path_key(shown->0)) is Some;
            let out = packed_segment(segment, entries);
            &&& there ==> text_at(out, "imagePath"@) == packed_path(entries, path_key(shown->0))
                && text_at(out, "imagePreviewPath"@) == packed_path(entries, path_key(shown->0))
            &&& there && key != "imagePath"@ && key != "imagePreviewPath"@ ==> field(out, key)
                == field(segment, key)
            &&& !there ==> field(out, key) == field(segment, key)
        }),
{
    reveal_strlit("imagePath");
    reveal_strlit("imagePreviewPath");
    reveal_strlit("imageSrc");
    let a = "imagePath"@;
    let b = "imagePreviewPath"@;
    let c = "imageSrc"@;
    assert(a.len() == 9 && b.len() == 16 && c.len() == 8);
    let shown = either_text(segment, a, b);
    if shown is Some && packed_path(entries, path_key(shown->0)) is Some {
        let path = JsonView::Str(packed_path(entries, path_key(shown->0))->0);
        let once = with_field(segment, a, path);
        let twice = with_field(once, b, path);
        law_field_update(segment, a, path, b);
        law_field_update(once, b, path, a);
        law_field_removal(twice, c, a);
        law_field_removal(twice, c, b);
        if key != a && key != b {
            law_field_update(segment, a, path, key);
            law_field_update(once, b, path, key);
            law_field_removal(twice, c, key);
        }
    } else {
        law_field_removal(segment, c, key);
    }
}

} // verus!
