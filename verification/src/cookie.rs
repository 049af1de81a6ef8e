//! Cookie headers: lists of `key=value` parts between semicolons.

use crate::text::{
    char_is_space, concat3, ends_with, extend_text, finishes, found_at, law_prefix_taken_off,
    lemma_split_whole, piece, split, split_on, starts_with, strip_prefix, stripped_prefix, to_chars,
    to_text, trim, trim_start, trimmed, views,
};
use vstd::prelude::*;

verus! {

/// The value of the first part that begins with a needle, white space around parts aside.
pub open spec fn first_after(parts: Seq<Seq<char>>, needle: Seq<char>) -> Option<Seq<char>>
    decreases parts.len(),
{
    if parts.len() == 0 {
        None
    } else {
        match strip_prefix(trim(parts[0]), needle) {
            Some(value) => Some(value),
            None => first_after(parts.drop_first(), needle),
        }
    }
}

/// The value of a key in a cookie header: that of the first part with the key.
pub open spec fn cookie_value(cookie: Seq<char>, key: Seq<char>) -> Option<Seq<char>> {
    first_after(split_on(cookie, ';'), key.push('='))
}

/// The value of a key in a cookie header.
pub fn extract_cookie_value(cookie: &str, key: &str) -> (r: Option<String>)
    ensures
        match r {
            Some(value) => cookie_value(cookie@, key@) == Some(value@),
            None => cookie_value(cookie@, key@) is None,
        },
{
    let mut needle_chars = to_chars(key);
    needle_chars.push('=');
    let needle = to_text(needle_chars.as_slice());
    let chars = to_chars(cookie);
    let parts = split(chars.as_slice(), ';');
    let ghost all = views(parts@);
    let mut i: usize = 0;
    assert(all.skip(0) =~= all);
    while i < parts.len()
        invariant
            i <= parts@.len(),
            all == views(parts@),
            all == split_on(cookie@, ';'),
            needle@ == key@.push('='),
            first_after(all, needle@) == first_after(all.skip(i as int), needle@),
        decreases parts.len() - i,
    {
        assert(all.skip(i as int)[0] == parts@[i as int]@);
        assert(all.skip(i as int).drop_first() =~= all.skip(i + 1));
        let part = trimmed(parts[i].as_slice());
        if let Some(value) = stripped_prefix(part.as_slice(), needle.as_str()) {
            return Some(to_text(value.as_slice()));
        }
        i += 1;
    }
    assert(all.skip(i as int).len() == 0);
    None
}

/// The CSRF token in a Bilibili cookie header.
pub fn extract_csrf(cookie: &str) -> (r: Option<String>)
    ensures
        match r {
            Some(value) => cookie_value(cookie@, "bili_jct"@) == Some(value@),
            None => cookie_value(cookie@, "bili_jct"@) is None,
        },
{
    extract_cookie_value(cookie, "bili_jct")
}

/// Tells whether any part begins with a needle, leading white space aside.
pub open spec fn any_begins(parts: Seq<Seq<char>>, needle: Seq<char>) -> bool {
    exists|i: int| 0 <= i < parts.len() && starts_with(#[trigger] trim_start(parts[i]), needle)
}

/// Tells whether a cookie header has a key.
pub open spec fn has_key(cookie: Seq<char>, key: Seq<char>) -> bool {
    any_begins(split_on(cookie, ';'), key.push('='))
}

fn trimmed_start(s: &[char]) -> (r: Vec<char>)
    ensures
        r@ == trim_start(s@),
{
    let mut from: usize = 0;
    assert(s@.subrange(0, s@.len() as int) =~= s@);
    while from < s.len() && char_is_space(s[from])
        invariant
            from <= s@.len(),
            trim_start(s@) == trim_start(s@.subrange(from as int, s@.len() as int)),
        decreases s.len() - from,
    {
        assert(s@.subrange(from as int, s@.len() as int).drop_first() =~= s@.subrange(
            from + 1,
            s@.len() as int,
        ));
        from += 1;
    }
    piece(s, from, s.len())
}

/// Tells whether a cookie header has a key.
pub fn cookie_has_key(cookie: &str, key: &str) -> (r: bool)
    ensures
        r == has_key(cookie@, key@),
{
    let mut needle = to_chars(key);
    needle.push('=');
    let chars = to_chars(cookie);
    let parts = split(chars.as_slice(), ';');
    let ghost all = views(parts@);
    let mut i: usize = 0;
    while i < parts.len()
        invariant
            i <= parts@.len(),
            all == views(parts@),
            all == split_on(cookie@, ';'),
            needle@ == key@.push('='),
            forall|k: int| 0 <= k < i ==> !starts_with(#[trigger] trim_start(all[k]), needle@),
        decreases parts.len() - i,
    {
        let part = trimmed_start(parts[i].as_slice());
        assert(part@ == trim_start(all[i as int]));
        if found_at(part.as_slice(), needle.as_slice(), 0) {
            return true;
        }
        i += 1;
    }
    false
}

/// A cookie header with one more part behind the others.
pub open spec fn with_cookie(cookie: Seq<char>, key: Seq<char>, value: Seq<char>) -> Seq<char> {
    let kept = trim(cookie);
    if kept.len() == 0 {
        key + "="@ + value
    } else if ends_with(kept, ";"@) {
        kept + " "@ + key + "="@ + value
    } else {
        kept + "; "@ + key + "="@ + value
    }
}

/// Adds a part to a cookie header.
pub fn append_cookie(cookie: &str, key: &str, value: &str) -> (r: String)
    ensures
        r@ == with_cookie(cookie@, key@, value@),
{
    let chars = to_chars(cookie);
    let mut out = trimmed(chars.as_slice());
    if out.len() == 0 {
        return concat3(key, "=", value);
    }
    if finishes(out.as_slice(), ";") {
        extend_text(&mut out, " ");
    } else {
        extend_text(&mut out, "; ");
    }
    extend_text(&mut out, key);
    extend_text(&mut out, "=");
    extend_text(&mut out, value);
    to_text(out.as_slice())
}

/// A part that was added to a cookie header is found there by its key.
pub proof fn law_appended_cookie_found(cookie: Seq<char>, key: Seq<char>, value: Seq<char>)
    requires
        key.len() > 0,
        !crate::text::is_space(key[0]),
        !key.contains(';'),
    ensures
        has_key(with_cookie(cookie, key, value), key),
{
    reveal_strlit("=");
    reveal_strlit(";");
    reveal_strlit(" ");
    reveal_strlit("; ");
    let needle = key.push('=');
    let kept = trim(cookie);
    let all = with_cookie(cookie, key, value);
    assert forall|k: int| 0 <= k < needle.len() implies needle[k] != ';' by {
        if k < key.len() {
            assert(key.contains(key[k]));
        }
    }
    if kept.len() == 0 {
        assert(all =~= needle + value);
        crate::text::lemma_split_head(needle, value, ';');
        crate::text::lemma_split_nonempty(all, ';');
        let first = split_on(all, ';')[0];
        assert(first.subrange(0, needle.len() as int)[0] == needle[0]);
        assert(trim_start(first) == first);
    } else {
        let before = if ends_with(kept, ";"@) {
            kept.drop_last()
        } else {
            kept
        };
        if ends_with(kept, ";"@) {
            assert(kept.subrange(kept.len() - 1, kept.len() as int)[0] == ';');
            assert(kept =~= before.push(';'));
        }
        let spaced = seq![' '] + needle;
        assert(all =~= before.push(';') + (spaced + value));
        crate::text::lemma_split_concat(before, spaced + value, ';');
        crate::text::lemma_split_head(spaced, value, ';');
        crate::text::lemma_split_nonempty(spaced + value, ';');
        let left = split_on(before, ';');
        let first = split_on(spaced + value, ';')[0];
        assert(split_on(all, ';')[left.len() as int] == first);
        assert(first.subrange(0, spaced.len() as int) == spaced);
        assert(first.subrange(0, spaced.len() as int)[0] == ' ');
        assert(first[0] == ' ');
        assert(first.subrange(0, spaced.len() as int)[1] == needle[0]);
        let rest = first.drop_first();
        assert(rest[0] == needle[0]);
        assert(trim_start(first) == trim_start(rest));
        assert(trim_start(rest) == rest);
        assert(rest.subrange(0, needle.len() as int) =~= first.subrange(
            0,
            spaced.len() as int,
        ).drop_first());
        assert(spaced.drop_first() =~= needle);
        assert(starts_with(trim_start(split_on(all, ';')[left.len() as int]), needle));
    }
}

/// The value of a key is what stands behind it in the first part that begins with it.
pub proof fn law_first_part_with_key(parts: Seq<Seq<char>>, key: Seq<char>, i: int, value: Seq<char>)
    requires
        0 <= i < parts.len(),
        trim(parts[i]) == key.push('=') + value,
        forall|k: int| 0 <= k < i ==> !starts_with(trim(#[trigger] parts[k]), key.push('=')),
    ensures
        first_after(parts, key.push('=')) == Some(value),
    decreases parts.len(),
{
    law_prefix_taken_off(key.push('='), value);
    if i > 0 {
        assert(!starts_with(trim(parts[0]), key.push('=')));
        let rest = parts.drop_first();
        assert forall|k: int| 0 <= k < i - 1 implies !starts_with(
            trim(#[trigger] rest[k]),
            key.push('='),
        ) by {
            assert(rest[k] == parts[k + 1]);
        }
        assert(rest[i - 1] == parts[i]);
        law_first_part_with_key(rest, key, i - 1, value);
    }
}

/// A cookie of one part tells the value of its key, and of no other that it does not begin with.
pub proof fn law_value_of_key(key: Seq<char>, value: Seq<char>, other: Seq<char>)
    requires
        forall|k: int| 0 <= k < key.len() ==> key[k] != ';',
        forall|k: int| 0 <= k < value.len() ==> value[k] != ';',
        trim(key.push('=') + value) == key.push('=') + value,
    ensures
        cookie_value(key.push('=') + value, key) == Some(value),
        !starts_with(key.push('=') + value, other.push('=')) ==> cookie_value(
            key.push('=') + value,
            other,
        ) is None,
{
    let whole = key.push('=') + value;
    assert forall|k: int| 0 <= k < whole.len() implies whole[k] != ';' by {
        if k < key.len() {
            assert(whole[k] == key[k]);
        } else if k > key.len() {
            assert(whole[k] == value[k - key.len() - 1]);
        }
    }
    lemma_split_whole(whole, ';');
    let parts = split_on(whole, ';');
    assert(parts[0] == whole);
    law_first_part_with_key(parts, key, 0, value);
    reveal_with_fuel(first_after, 2);
    assert(parts.drop_first().len() == 0);
}

} // verus!
