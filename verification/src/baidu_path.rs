//! Paths in the cloud storage.

use crate::text::{
    copy_text, extend, is_space, is_text, last_index_of, last_position, lemma_last_index_of, piece,
    replaced_char, split, split_on, substituted, text_eq, to_chars, to_text, trim, trim_end_char,
    trim_start_char, trimmed, trimmed_end_char, trimmed_start_char, views,
};
use vstd::prelude::*;

verus! {

/// A path in its usual form: with slashes, a slash in front and none at the end.
pub open spec fn normal_path(path: Seq<char>) -> Seq<char> {
    let kept = trim(path);
    if kept.len() == 0 {
        seq!['/']
    } else {
        let cut = trim_end_char(substituted(kept, '\\', '/'), '/');
        if cut.len() > 0 && cut[0] == '/' {
            cut
        } else {
            seq!['/'] + cut
        }
    }
}

fn normal_chars(path: &[char]) -> (r: Vec<char>)
    ensures
        r@ == normal_path(path@),
{
    let kept = trimmed(path);
    let mut out: Vec<char> = Vec::new();
    if kept.len() == 0 {
        out.push('/');
        assert(out@ =~= seq!['/']);
        return out;
    }
    let slashed = replaced_char(kept.as_slice(), '\\', '/');
    let cut = trimmed_end_char(slashed.as_slice(), '/');
    if cut.len() > 0 && cut[0] == '/' {
        return cut;
    }
    out.push('/');
    extend(&mut out, cut.as_slice());
    assert(out@ =~= normal_path(path@));
    out
}

/// A path in its usual form.
pub fn normalize_baidu_path(path: &str) -> (r: String)
    ensures
        r@ == normal_path(path@),
{
    let chars = to_chars(path);
    let out = normal_chars(chars.as_slice());
    to_text(out.as_slice())
}

/// A path below another one. A segment without a name adds nothing.
pub open spec fn joined_path(base: Seq<char>, segment: Seq<char>) -> Seq<char> {
    let below = trim_end_char(trim_start_char(trim(segment), '/'), '/');
    if below.len() == 0 {
        normal_path(base)
    } else {
        trim_end_char(normal_path(base), '/') + seq!['/'] + below
    }
}

/// A path below another one.
pub fn join_baidu_path(base: &str, segment: &str) -> (r: String)
    ensures
        r@ == joined_path(base@, segment@),
{
    let base_chars = to_chars(base);
    let normal = normal_chars(base_chars.as_slice());
    let segment_chars = to_chars(segment);
    let kept = trimmed(segment_chars.as_slice());
    let front = trimmed_start_char(kept.as_slice(), '/');
    let below = trimmed_end_char(front.as_slice(), '/');
    if below.len() == 0 {
        return to_text(normal.as_slice());
    }
    let mut out = trimmed_end_char(normal.as_slice(), '/');
    let ghost head = out@;
    out.push('/');
    assert(out@ =~= head + seq!['/']);
    extend(&mut out, below.as_slice());
    to_text(out.as_slice())
}

proof fn lemma_trim_end_char(s: Seq<char>, c: char)
    ensures
        trim_end_char(s, c).len() <= s.len(),
        trim_end_char(s, c) == s.take(trim_end_char(s, c).len() as int),
        trim_end_char(s, c).len() > 0 ==> trim_end_char(s, c).last() != c,
        trim_end_char(trim_end_char(s, c), c) == trim_end_char(s, c),
    decreases s.len(),
{
    if s.len() > 0 && s.last() == c {
        lemma_trim_end_char(s.drop_last(), c);
        let t = trim_end_char(s, c);
        assert(s.drop_last().take(t.len() as int) =~= s.take(t.len() as int));
    } else {
        assert(s.take(s.len() as int) =~= s);
    }
}

/// A path in its usual form begins with a slash, and ends with one only where it is the root.
pub proof fn law_normal_path_form(path: Seq<char>)
    ensures
        normal_path(path).len() >= 1,
        normal_path(path)[0] == '/',
        normal_path(path).last() == '/' ==> normal_path(path).len() == 1,
        forall|k: int| 0 <= k < normal_path(path).len() ==> normal_path(path)[k] != '\\',
{
    let kept = trim(path);
    let slashed = substituted(kept, '\\', '/');
    lemma_trim_end_char(slashed, '/');
    let cut = trim_end_char(slashed, '/');
    assert forall|k: int| 0 <= k < cut.len() implies cut[k] != '\\' by {
        assert(cut[k] == slashed[k]);
    }
}

/// A path in its usual form that does not end with white space is its own usual form.
pub proof fn law_normal_path_stable(path: Seq<char>)
    requires
        !is_space(normal_path(path).last()),
    ensures
        normal_path(normal_path(path)) == normal_path(path),
{
    let p = normal_path(path);
    law_normal_path_form(path);
    assert(crate::text::trim_start(p) == p);
    assert(trim(p) == p);
    assert(substituted(p, '\\', '/') =~= p);
    if p.len() == 1 {
        assert(trim_end_char(p, '/') =~= Seq::<char>::empty()) by {
            assert(p.drop_last() =~= Seq::<char>::empty());
            assert(trim_end_char(p.drop_last(), '/') == p.drop_last());
        }
        assert(normal_path(p) =~= p);
    }
}

/// Joining keeps the base: the result begins with it, and with a slash.
pub proof fn law_join_extends_base(base: Seq<char>, segment: Seq<char>)
    ensures
        joined_path(base, segment)[0] == '/',
        normal_path(base) != seq!['/'] ==> crate::text::starts_with(
            joined_path(base, segment),
            normal_path(base),
        ),
{
    law_normal_path_form(base);
    let b = normal_path(base);
    lemma_trim_end_char(b, '/');
    let cut = trim_end_char(b, '/');
    let below = trim_end_char(trim_start_char(trim(segment), '/'), '/');
    if b.len() > 1 {
        assert(b.last() != '/');
        assert(cut == b);
    } else {
        assert(b =~= seq!['/']);
        assert(b.drop_last().len() == 0);
        assert(cut.len() == 0);
    }
    let j = joined_path(base, segment);
    if below.len() == 0 {
        assert(j == b);
        assert(j.subrange(0, b.len() as int) =~= b);
    } else {
        if b.len() > 1 {
            assert(j.subrange(0, b.len() as int) =~= b);
        }
    }
}

/// The parent and the name of a path. The root has no name.
pub open spec fn parent_and_name(path: Seq<char>) -> (Seq<char>, Seq<char>) {
    let normal = normal_path(path);
    let at = last_index_of(normal, '/');
    if normal == seq!['/'] {
        (seq!['/'], Seq::empty())
    } else if at <= 0 {
        (seq!['/'], normal.skip(1))
    } else {
        (normal.take(at), normal.skip(at + 1))
    }
}

/// The parent and the name of a path.
pub fn split_baidu_parent_and_name(path: &str) -> (r: (String, String))
    ensures
        (r.0@, r.1@) == parent_and_name(path@),
{
    let chars = to_chars(path);
    let normal = normal_chars(chars.as_slice());
    proof {
        law_normal_path_form(path@);
        reveal_strlit("/");
        assert("/"@ =~= seq!['/']);
        lemma_last_index_of(normal@, '/');
    }
    if is_text(normal.as_slice(), "/") {
        let r = (copy_text("/"), String::new());
        assert(r.1@ =~= Seq::<char>::empty());
        return r;
    }
    match last_position(normal.as_slice(), '/') {
        Some(at) => {
            let len: usize = normal.len();
            assert(at < len);
            if at == 0 {
                let name = piece(normal.as_slice(), 1, normal.len());
                assert(name@ =~= normal@.skip(1));
                (copy_text("/"), to_text(name.as_slice()))
            } else {
                let parent = piece(normal.as_slice(), 0, at);
                let name = piece(normal.as_slice(), at + 1, normal.len());
                assert(parent@ =~= normal@.take(at as int));
                assert(name@ =~= normal@.skip(at + 1));
                (to_text(parent.as_slice()), to_text(name.as_slice()))
            }
        },
        None => {
            assert(normal@[0] == '/');
            (copy_text("/"), String::new())
        },
    }
}

/// The parent and the name make up the path again, and the name holds no slash.
pub proof fn law_parent_and_name(path: Seq<char>)
    requires
        normal_path(path) != seq!['/'],
    ensures
        ({
            let (parent, name) = parent_and_name(path);
            &&& name.len() > 0
            &&& forall|k: int| 0 <= k < name.len() ==> name[k] != '/'
            &&& (parent == seq!['/'] && normal_path(path) == parent + name) || normal_path(path)
                == parent + seq!['/'] + name
        }),
{
    let normal = normal_path(path);
    law_normal_path_form(path);
    lemma_last_index_of(normal, '/');
    let at = last_index_of(normal, '/');
    assert(at >= 0) by {
        if at < 0 {
            assert(normal[0] != '/');
        }
    }
    let (parent, name) = parent_and_name(path);
    assert(normal.len() > 1) by {
        if normal.len() == 1 {
            assert(normal =~= seq!['/']);
        }
    }
    assert(normal.last() != '/');
    assert(at < normal.len() - 1);
    if at == 0 {
        assert(normal =~= parent + name);
    } else {
        assert(normal =~= parent + seq!['/'] + name);
    }
}

/// Joining the parent and the name of a path gives the path in its usual form, where the parent is
/// in its usual form itself, the name has no white space at its ends, and a name below the root
/// follows a single slash.
pub proof fn law_join_undoes_split(path: Seq<char>)
    requires
        normal_path(parent_and_name(path).0) == parent_and_name(path).0,
        trim(parent_and_name(path).1) == parent_and_name(path).1,
        parent_and_name(path).0 == seq!['/'] ==> normal_path(path) == seq!['/']
            + parent_and_name(path).1,
    ensures
        joined_path(parent_and_name(path).0, parent_and_name(path).1) == normal_path(path),
{
    let (parent, name) = parent_and_name(path);
    let root = seq!['/'];
    assert(trim_end_char(root, '/') =~= Seq::<char>::empty()) by {
        assert(root.drop_last() =~= Seq::<char>::empty());
        assert(trim_end_char(root.drop_last(), '/') == root.drop_last());
    }
    if normal_path(path) != root {
        law_parent_and_name(path);
        assert(name[0] != '/' && name[name.len() - 1] != '/');
        assert(trim_end_char(trim_start_char(name, '/'), '/') == name);
        if parent == root {
            assert(Seq::<char>::empty() + root + name =~= root + name);
        } else {
            law_normal_path_form(parent);
            if parent.last() == '/' {
                assert(parent =~= root);
            }
            assert(trim_end_char(parent, '/') == parent);
        }
    }
}

/// The names along a path.
pub open spec fn path_names(path: Seq<char>) -> Seq<Seq<char>> {
    crate::recording::nonempty(split_on(path, '/'))
}

/// The names along a path.
fn names_of(path: &[char]) -> (r: Vec<Vec<char>>)
    ensures
        views(r@) == path_names(path@),
{
    let parts = split(path, '/');
    let ghost all = views(parts@);
    let mut out: Vec<Vec<char>> = Vec::new();
    let mut i: usize = 0;
    assert(all.take(0) =~= Seq::<Seq<char>>::empty());
    assert(views(out@) =~= Seq::<Seq<char>>::empty());
    while i < parts.len()
        invariant
            i <= parts@.len(),
            all == views(parts@),
            views(out@) == crate::recording::nonempty(all.take(i as int)),
        decreases parts.len() - i,
    {
        assert(all.take(i + 1).drop_last() =~= all.take(i as int));
        assert(all.take(i + 1).last() == parts@[i as int]@);
        let ghost before = views(out@);
        let len: usize = parts[i].len();
        if len > 0 {
            let copy = piece(parts[i].as_slice(), 0, len);
            assert(copy@ =~= parts@[i as int]@);
            out.push(copy);
            assert(views(out@) =~= before.push(parts@[i as int]@));
        }
        i += 1;
    }
    assert(all.take(i as int) =~= all);
    out
}

/// The last name along a path, empty where it has none.
pub fn last_name(path: &str) -> (r: String)
    ensures
        r@ == (if path_names(path@).len() > 0 {
            path_names(path@).last()
        } else {
            Seq::empty()
        }),
{
    let chars = to_chars(path);
    let names = names_of(chars.as_slice());
    assert(views(names@).len() == names@.len());
    if names.len() > 0 {
        let last = &names[names.len() - 1];
        assert(views(names@).last() == last@);
        to_text(last.as_slice())
    } else {
        String::new()
    }
}

/// The directory that holds a path.
pub open spec fn holding_dir(path: Seq<char>) -> Seq<char> {
    let names = path_names(normal_path(path));
    if names.len() <= 1 {
        seq!['/']
    } else {
        seq!['/'] + crate::text::join(names.drop_last(), seq!['/'])
    }
}

/// The directory that holds a path.
pub fn parent_directory(path: &str) -> (r: String)
    ensures
        r@ == holding_dir(path@),
{
    let chars = to_chars(path);
    let normal = normal_chars(chars.as_slice());
    let mut names = names_of(normal.as_slice());
    let ghost all = views(names@);
    assert(all.len() == names@.len());
    let mut out: Vec<char> = Vec::new();
    out.push('/');
    assert(out@ =~= seq!['/']);
    if names.len() > 1 {
        names.pop();
        assert(views(names@) =~= all.drop_last());
        let rest = crate::text::joined(&names, "/");
        proof {
            reveal_strlit("/");
            assert("/"@ =~= seq!['/']);
        }
        extend(&mut out, rest.as_slice());
    }
    to_text(out.as_slice())
}

/// Where a directory goes when it is renamed, or why it cannot be. `safe_name` is the new name
/// as a file name.
pub fn rename_target(from_path: &str, safe_name: &str) -> (r: Result<String, String>)
    ensures
        match r {
            Ok(target) => normal_path(from_path@) != seq!['/'] && safe_name@.len() > 0 && target@
                == joined_path(holding_dir(from_path@), safe_name@),
            Err(message) => if normal_path(from_path@) == seq!['/'] {
                message@ == "无法重命名根目录"@
            } else {
                safe_name@.len() == 0 && message@ == "目录名称不能为空"@
            },
        },
{
    let normal = normalize_baidu_path(from_path);
    proof {
        reveal_strlit("/");
        assert("/"@ =~= seq!['/']);
    }
    if text_eq(normal.as_str(), "/") {
        return Err(copy_text("无法重命名根目录"));
    }
    if safe_name.is_empty() {
        return Err(copy_text("目录名称不能为空"));
    }
    let parent = parent_directory(from_path);
    Ok(join_baidu_path(parent.as_str(), safe_name))
}

/// The directory that holds a path is the path without its last name.
pub proof fn law_directory_holds_name(names: Seq<Seq<char>>)
    requires
        names.len() > 1,
        forall|i: int| 0 <= i < names.len() ==> (#[trigger] names[i]).len() > 0,
        forall|i: int, k: int|
            0 <= i < names.len() && 0 <= k < names[i].len() ==> #[trigger] names[i][k] != '/',
    ensures
        ({
            let path = seq!['/'] + crate::text::join(names, seq!['/']);
            &&& path_names(path) == names
            &&& normal_path(path) == path ==> holding_dir(path) == seq!['/'] + crate::text::join(
                names.drop_last(),
                seq!['/'],
            )
        }),
{
    let text = crate::text::join(names, seq!['/']);
    let path = seq!['/'] + text;
    let none = Seq::<char>::empty();
    crate::text::lemma_join_split(names, '/');
    assert(path =~= none.push('/') + text);
    crate::text::lemma_split_concat(none, text, '/');
    assert(split_on(none, '/') =~= seq![none]);
    assert(split_on(path, '/') =~= seq![none] + names);
    lemma_names_kept(seq![none], names);
    assert(path_names(path) =~= names);
}

proof fn lemma_names_kept(before: Seq<Seq<char>>, names: Seq<Seq<char>>)
    requires
        before == seq![Seq::<char>::empty()],
        forall|i: int| 0 <= i < names.len() ==> (#[trigger] names[i]).len() > 0,
    ensures
        crate::recording::nonempty(before + names) == names,
    decreases names.len(),
{
    let whole = before + names;
    if names.len() == 0 {
        assert(whole =~= before);
        assert(whole.last().len() == 0);
        reveal_with_fuel(crate::recording::nonempty, 2);
        assert(crate::recording::nonempty(whole) =~= names);
    } else {
        let rest = names.drop_last();
        assert forall|i: int| 0 <= i < rest.len() implies (#[trigger] rest[i]).len() > 0 by {
            assert(rest[i] == names[i]);
        }
        lemma_names_kept(before, rest);
        assert(whole.drop_last() =~= before + rest);
        assert(names[names.len() - 1].len() > 0);
        assert(whole.last() == names.last());
        assert(rest.push(names.last()) =~= names);
    }
}

/// A name gets a slash in front, and one that has it stays.
pub proof fn law_name_becomes_path(name: Seq<char>)
    requires
        name.len() > 0,
        trim(name) == name,
        trim(seq!['/'] + name) == seq!['/'] + name,
        forall|k: int| 0 <= k < name.len() ==> name[k] != '\\',
        name[0] != '/',
        name.last() != '/',
    ensures
        normal_path(name) == seq!['/'] + name,
        normal_path(seq!['/'] + name) == seq!['/'] + name,
        joined_path(Seq::empty(), name) == seq!['/'] + name,
        joined_path(name, name) == seq!['/'] + name + seq!['/'] + name,
{
    let path = seq!['/'] + name;
    assert(substituted(name, '\\', '/') =~= name);
    assert(substituted(path, '\\', '/') =~= path);
    assert(path.last() == name.last());
    assert(trim_end_char(name, '/') == name);
    assert(trim_end_char(path, '/') == path);
    assert(trim_start_char(name, '/') == name);
    let none = Seq::<char>::empty();
    assert(trim(none) =~= none);
    let root = seq!['/'];
    assert(root.drop_last() =~= none);
    assert(trim_end_char(none, '/') =~= none);
    assert(trim_end_char(root, '/') =~= none);
    assert(none + seq!['/'] + name =~= path);
}

} // verus!
