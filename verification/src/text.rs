//! Text primitives over sequences of characters.

use vstd::prelude::*;

verus! {

/// Appends one character to a string: `String::push`.
pub assume_specification[ String::push ](s: &mut String, c: char)
    ensures
        final(s)@ == old(s)@.push(c),
;

/// The characters with the Unicode property `White_Space`.
pub open spec fn is_space(c: char) -> bool {
    ||| ('\u{9}' <= c && c <= '\u{d}')
    ||| c == ' '
    ||| c == '\u{85}'
    ||| c == '\u{a0}'
    ||| c == '\u{1680}'
    ||| ('\u{2000}' <= c && c <= '\u{200a}')
    ||| c == '\u{2028}'
    ||| c == '\u{2029}'
    ||| c == '\u{202f}'
    ||| c == '\u{205f}'
    ||| c == '\u{3000}'
}

/// Tells whether a character is white space.
pub fn char_is_space(c: char) -> (r: bool)
    ensures
        r == is_space(c),
{
    ('\u{9}' <= c && c <= '\u{d}') || c == ' ' || c == '\u{85}' || c == '\u{a0}' || c == '\u{1680}'
        || ('\u{2000}' <= c && c <= '\u{200a}') || c == '\u{2028}' || c == '\u{2029}' || c
        == '\u{202f}' || c == '\u{205f}' || c == '\u{3000}'
}

/// The characters of a string.
pub fn to_chars(s: &str) -> (r: Vec<char>)
    ensures
        r@ == s@,
{
    let mut out: Vec<char> = Vec::new();
    for c in iter: s.chars()
        invariant
            iter.seq() == s@,
            out@ == s@.take(iter.index() as int),
    {
        out.push(c);
        assert(s@.take(iter.index() + 1) =~= s@.take(iter.index() as int).push(c));
    }
    assert(s@.take(s@.len() as int) =~= s@);
    out
}

/// The string made of the given characters.
pub fn to_text(v: &[char]) -> (r: String)
    ensures
        r@ == v@,
{
    let mut out: String = String::new();
    let mut i: usize = 0;
    while i < v.len()
        invariant
            i <= v.len(),
            out@ == v@.take(i as int),
        decreases v.len() - i,
    {
        out.push(v[i]);
        i += 1;
        assert(v@.take(i as int) =~= v@.take(i - 1).push(v@[i - 1]));
    }
    assert(v@.take(i as int) =~= v@);
    out
}

// ---------------------------------------------------------------------------
// Comparison

/// Tells whether two character sequences are the same.
pub fn same(a: &[char], b: &[char]) -> (r: bool)
    ensures
        r == (a@ == b@),
{
    if a.len() != b.len() {
        return false;
    }
    let mut i: usize = 0;
    while i < a.len()
        invariant
            i <= a.len(),
            a@.len() == b@.len(),
            forall|k: int| 0 <= k < i ==> a@[k] == b@[k],
        decreases a.len() - i,
    {
        if a[i] != b[i] {
            assert(a@[i as int] != b@[i as int]);
            return false;
        }
        i += 1;
    }
    assert(a@ =~= b@);
    true
}

/// Tells whether a character sequence spells the given text.
pub fn is_text(a: &[char], b: &str) -> (r: bool)
    ensures
        r == (a@ == b@),
{
    let other = to_chars(b);
    same(a, other.as_slice())
}

/// Tells whether two texts are the same.
pub fn text_eq(a: &str, b: &str) -> (r: bool)
    ensures
        r == (a@ == b@),
{
    let left = to_chars(a);
    is_text(left.as_slice(), b)
}

/// A copy of the characters between two positions.
pub fn piece(s: &[char], from: usize, to: usize) -> (r: Vec<char>)
    requires
        from <= to <= s@.len(),
    ensures
        r@ == s@.subrange(from as int, to as int),
{
    let mut out: Vec<char> = Vec::new();
    let mut i: usize = from;
    while i < to
        invariant
            from <= i <= to <= s@.len(),
            out@ == s@.subrange(from as int, i as int),
        decreases to - i,
    {
        out.push(s[i]);
        i += 1;
        assert(s@.subrange(from as int, i as int) =~= s@.subrange(from as int, i - 1).push(
            s@[i - 1],
        ));
    }
    out
}

// ---------------------------------------------------------------------------
// Trimming

/// A sequence without its leading white space.
pub open spec fn trim_start(s: Seq<char>) -> Seq<char>
    decreases s.len(),
{
    if s.len() > 0 && is_space(s[0]) {
        trim_start(s.drop_first())
    } else {
        s
    }
}

/// A sequence without its trailing white space.
pub open spec fn trim_end(s: Seq<char>) -> Seq<char>
    decreases s.len(),
{
    if s.len() > 0 && is_space(s.last()) {
        trim_end(s.drop_last())
    } else {
        s
    }
}

/// A sequence without white space at either end.
pub open spec fn trim(s: Seq<char>) -> Seq<char> {
    trim_end(trim_start(s))
}

/// A sequence without the leading run of one character.
pub open spec fn trim_start_char(s: Seq<char>, c: char) -> Seq<char>
    decreases s.len(),
{
    if s.len() > 0 && s[0] == c {
        trim_start_char(s.drop_first(), c)
    } else {
        s
    }
}

/// A sequence without the trailing run of one character.
pub open spec fn trim_end_char(s: Seq<char>, c: char) -> Seq<char>
    decreases s.len(),
{
    if s.len() > 0 && s.last() == c {
        trim_end_char(s.drop_last(), c)
    } else {
        s
    }
}

/// The characters without white space at either end.
pub fn trimmed(s: &[char]) -> (r: Vec<char>)
    ensures
        r@ == trim(s@),
{
    let mut from: usize = 0;
    assert(s@.subrange(0, s@.len() as int) =~= s@);
    while from < s.len() && char_is_space(s[from])
        invariant
            from <= s@.len(),
            trim_start(s@) == trim_start(s@.subrange(from as int, s@.len() as int)),
        decreases s.len() - from,
    {
        assert(s@.subrange(from as int, s@.len() as int).drop_first() =~= s@.subrange(
            from + 1,
            s@.len() as int,
        ));
        from += 1;
    }
    let mut to: usize = s.len();
    while to > from && char_is_space(s[to - 1])
        invariant
            from <= to <= s@.len(),
            trim(s@) == trim_end(s@.subrange(from as int, to as int)),
        decreases to,
    {
        assert(s@.subrange(from as int, to as int).drop_last() =~= s@.subrange(
            from as int,
            to - 1,
        ));
        to -= 1;
    }
    piece(s, from, to)
}

/// A text without white space at either end.
pub fn trim_text(s: &str) -> (r: String)
    ensures
        r@ == trim(s@),
{
    let chars = to_chars(s);
    let t = trimmed(chars.as_slice());
    to_text(t.as_slice())
}

/// The characters without the leading run of one character.
pub fn trimmed_start_char(s: &[char], c: char) -> (r: Vec<char>)
    ensures
        r@ == trim_start_char(s@, c),
{
    let mut from: usize = 0;
    assert(s@.subrange(0, s@.len() as int) =~= s@);
    while from < s.len() && s[from] == c
        invariant
            from <= s@.len(),
            trim_start_char(s@, c) == trim_start_char(s@.subrange(from as int, s@.len() as int), c),
        decreases s.len() - from,
    {
        assert(s@.subrange(from as int, s@.len() as int).drop_first() =~= s@.subrange(
            from + 1,
            s@.len() as int,
        ));
        from += 1;
    }
    piece(s, from, s.len())
}

/// The characters without the trailing run of one character.
pub fn trimmed_end_char(s: &[char], c: char) -> (r: Vec<char>)
    ensures
        r@ == trim_end_char(s@, c),
{
    let mut to: usize = s.len();
    assert(s@.subrange(0, s@.len() as int) =~= s@);
    while to > 0 && s[to - 1] == c
        invariant
            to <= s@.len(),
            trim_end_char(s@, c) == trim_end_char(s@.subrange(0, to as int), c),
        decreases to,
    {
        assert(s@.subrange(0, to as int).drop_last() =~= s@.subrange(0, to - 1));
        to -= 1;
    }
    piece(s, 0, to)
}

/// Trimming leaves no white space at either end.
pub proof fn lemma_trim_ends(s: Seq<char>)
    ensures
        trim(s).len() > 0 ==> !is_space(trim(s)[0]) && !is_space(trim(s).last()),
        trim(s).len() <= s.len(),
{
    lemma_trim_start_head(s);
    lemma_trim_end_keeps_head(trim_start(s));
}

/// Trimming leaves what begins without white space at its beginning.
pub proof fn lemma_trim_keeps_head(s: Seq<char>)
    requires
        s.len() > 0,
        !is_space(s[0]),
    ensures
        trim(s).len() > 0,
        trim(s)[0] == s[0],
    decreases s.len(),
{
    lemma_trim_end_kept(s);
}

proof fn lemma_trim_end_kept(s: Seq<char>)
    requires
        s.len() > 0,
        !is_space(s[0]),
    ensures
        trim_end(s).len() > 0,
        trim_end(s)[0] == s[0],
    decreases s.len(),
{
    if is_space(s.last()) {
        lemma_trim_end_kept(s.drop_last());
    }
}

proof fn lemma_trim_start_head(s: Seq<char>)
    ensures
        trim_start(s).len() > 0 ==> !is_space(trim_start(s)[0]),
        trim_start(s).len() <= s.len(),
    decreases s.len(),
{
    if s.len() > 0 && is_space(s[0]) {
        lemma_trim_start_head(s.drop_first());
    }
}

proof fn lemma_trim_end_keeps_head(s: Seq<char>)
    ensures
        trim_end(s).len() > 0 ==> trim_end(s)[0] == s[0] && !is_space(trim_end(s).last()),
        trim_end(s).len() <= s.len(),
    decreases s.len(),
{
    if s.len() > 0 && is_space(s.last()) {
        lemma_trim_end_keeps_head(s.drop_last());
    }
}

// ---------------------------------------------------------------------------
// Searching

/// Tells whether `p` stands in `s` at position `i`.
pub open spec fn occurs_at(s: Seq<char>, p: Seq<char>, i: int) -> bool {
    0 <= i && i + p.len() <= s.len() && s.subrange(i, i + p.len()) == p
}

/// Tells whether `p` stands anywhere in `s`.
pub open spec fn contains(s: Seq<char>, p: Seq<char>) -> bool {
    exists|i: int| occurs_at(s, p, i)
}

/// Tells whether `s` begins with `p`.
pub open spec fn starts_with(s: Seq<char>, p: Seq<char>) -> bool {
    occurs_at(s, p, 0)
}

/// Tells whether `s` ends with `p`.
pub open spec fn ends_with(s: Seq<char>, p: Seq<char>) -> bool {
    occurs_at(s, p, s.len() - p.len())
}

/// The first position at or after `from` where `p` stands in `s`.
pub open spec fn find_from(s: Seq<char>, p: Seq<char>, from: int) -> Option<int>
    decreases s.len() + 1 - from,
{
    if from < 0 || from + p.len() > s.len() {
        None
    } else if occurs_at(s, p, from) {
        Some(from)
    } else {
        find_from(s, p, from + 1)
    }
}

/// Tells whether `p` stands in `s` at position `i`.
pub fn found_at(s: &[char], p: &[char], i: usize) -> (r: bool)
    requires
        i <= s@.len(),
    ensures
        r == occurs_at(s@, p@, i as int),
{
    if s.len() - i < p.len() {
        return false;
    }
    let mut k: usize = 0;
    while k < p.len()
        invariant
            k <= p@.len(),
            i + p@.len() <= s.len(),
            forall|j: int| 0 <= j < k ==> s@[i + j] == p@[j],
        decreases p.len() - k,
    {
        if s[i + k] != p[k] {
            assert(s@.subrange(i as int, i + p@.len())[k as int] != p@[k as int]);
            return false;
        }
        k += 1;
    }
    assert(s@.subrange(i as int, i + p@.len()) =~= p@);
    true
}

proof fn lemma_find_from(s: Seq<char>, p: Seq<char>, from: int)
    requires
        from >= 0,
    ensures
        match find_from(s, p, from) {
            Some(i) => from <= i && occurs_at(s, p, i) && forall|j: int|
                from <= j < i ==> !occurs_at(s, p, j),
            None => forall|j: int| from <= j ==> !occurs_at(s, p, j),
        },
    decreases s.len() + 1 - from,
{
    if from + p.len() > s.len() {
    } else if occurs_at(s, p, from) {
    } else {
        lemma_find_from(s, p, from + 1);
    }
}

/// A search finds the leftmost place, and fails only where there is none.
pub proof fn lemma_find_is_leftmost(s: Seq<char>, p: Seq<char>, from: int)
    requires
        from >= 0,
    ensures
        match find_from(s, p, from) {
            Some(i) => from <= i && occurs_at(s, p, i) && forall|j: int|
                from <= j < i ==> !occurs_at(s, p, j),
            None => forall|j: int| from <= j ==> !occurs_at(s, p, j),
        },
        from == 0 ==> (contains(s, p) <==> find_from(s, p, from) is Some),
{
    lemma_find_from(s, p, from);
}

/// The first position at or after `from` where `p` stands in `s`.
pub fn find(s: &[char], p: &[char], from: usize) -> (r: Option<usize>)
    ensures
        match r {
            Some(i) => find_from(s@, p@, from as int) == Some(i as int) && occurs_at(s@, p@, i as int) && from <= i,
            None => find_from(s@, p@, from as int) is None,
        },
{
    let mut i: usize = from;
    while i <= s.len() && p.len() <= s.len() - i
        invariant
            from <= i,
            find_from(s@, p@, from as int) == find_from(s@, p@, i as int),
        decreases s.len() + 1 - i,
    {
        if found_at(s, p, i) {
            return Some(i);
        }
        if i == s.len() {
            assert(find_from(s@, p@, i + 1) is None);
            return None;
        }
        i += 1;
    }
    None
}

/// Tells whether `p` stands anywhere in `s`.
pub fn has(s: &[char], p: &[char]) -> (r: bool)
    ensures
        r == contains(s@, p@),
{
    proof {
        lemma_find_is_leftmost(s@, p@, 0);
    }
    find(s, p, 0).is_some()
}

/// Tells whether the text `p` stands anywhere in the text `s`.
pub fn text_has(s: &str, p: &str) -> (r: bool)
    ensures
        r == contains(s@, p@),
{
    let a = to_chars(s);
    let b = to_chars(p);
    has(a.as_slice(), b.as_slice())
}

/// Tells whether the text `p` stands anywhere in the characters `s`.
pub fn chars_have(s: &[char], p: &str) -> (r: bool)
    ensures
        r == contains(s@, p@),
{
    let b = to_chars(p);
    has(s, b.as_slice())
}

/// Tells whether the characters begin with a text.
pub fn begins(s: &[char], p: &str) -> (r: bool)
    ensures
        r == starts_with(s@, p@),
{
    let b = to_chars(p);
    found_at(s, b.as_slice(), 0)
}

/// Tells whether the characters end with a text.
pub fn finishes(s: &[char], p: &str) -> (r: bool)
    ensures
        r == ends_with(s@, p@),
{
    let b = to_chars(p);
    if b.len() > s.len() {
        return false;
    }
    found_at(s, b.as_slice(), s.len() - b.len())
}

/// What follows a prefix.
pub open spec fn strip_prefix(s: Seq<char>, p: Seq<char>) -> Option<Seq<char>> {
    if starts_with(s, p) {
        Some(s.skip(p.len() as int))
    } else {
        None
    }
}

/// What follows the prefix `p`, where the characters begin with it.
pub fn stripped_prefix(s: &[char], p: &str) -> (r: Option<Vec<char>>)
    ensures
        match r {
            Some(t) => strip_prefix(s@, p@) == Some(t@),
            None => strip_prefix(s@, p@) is None,
        },
{
    let b = to_chars(p);
    if found_at(s, b.as_slice(), 0) {
        let t = piece(s, b.len(), s.len());
        assert(t@ =~= s@.skip(p@.len() as int));
        Some(t)
    } else {
        None
    }
}

/// The first position of a character, or the length where there is none.
pub open spec fn index_of(s: Seq<char>, c: char) -> int
    decreases s.len(),
{
    if s.len() == 0 || s[0] == c {
        0
    } else {
        1 + index_of(s.drop_first(), c)
    }
}

/// The last position of a character, or -1 where there is none.
pub open spec fn last_index_of(s: Seq<char>, c: char) -> int
    decreases s.len(),
{
    if s.len() == 0 {
        -1
    } else if s.last() == c {
        s.len() - 1
    } else {
        last_index_of(s.drop_last(), c)
    }
}

/// The first position of a character is the least one that holds it.
pub proof fn lemma_index_of(s: Seq<char>, c: char)
    ensures
        0 <= index_of(s, c) <= s.len(),
        index_of(s, c) < s.len() ==> s[index_of(s, c)] == c,
        forall|k: int| 0 <= k < index_of(s, c) ==> s[k] != c,
    decreases s.len(),
{
    if s.len() > 0 && s[0] != c {
        lemma_index_of(s.drop_first(), c);
        assert forall|k: int| 0 <= k < index_of(s, c) implies s[k] != c by {
            if k > 0 {
                assert(s[k] == s.drop_first()[k - 1]);
            }
        }
    }
}

/// The last position of a character is the greatest one that holds it.
pub proof fn lemma_last_index_of(s: Seq<char>, c: char)
    ensures
        -1 <= last_index_of(s, c) < s.len(),
        last_index_of(s, c) >= 0 ==> s[last_index_of(s, c)] == c,
        forall|k: int| last_index_of(s, c) < k < s.len() ==> s[k] != c,
    decreases s.len(),
{
    if s.len() > 0 && s.last() != c {
        lemma_last_index_of(s.drop_last(), c);
        assert forall|k: int| last_index_of(s, c) < k < s.len() implies s[k] != c by {
            if k < s.len() - 1 {
                assert(s[k] == s.drop_last()[k]);
            }
        }
    }
}

/// The first position of a character.
pub fn position(s: &[char], c: char) -> (r: Option<usize>)
    ensures
        match r {
            Some(i) => i == index_of(s@, c) && i < s@.len(),
            None => index_of(s@, c) == s@.len(),
        },
{
    let mut i: usize = 0;
    proof {
        lemma_index_of(s@, c);
    }
    while i < s.len()
        invariant
            i <= s@.len(),
            forall|k: int| 0 <= k < i ==> s@[k] != c,
            0 <= index_of(s@, c) <= s@.len(),
            index_of(s@, c) < s@.len() ==> s@[index_of(s@, c)] == c,
            forall|k: int| 0 <= k < index_of(s@, c) ==> s@[k] != c,
        decreases s.len() - i,
    {
        if s[i] == c {
            return Some(i);
        }
        i += 1;
    }
    None
}

/// The last position of a character.
pub fn last_position(s: &[char], c: char) -> (r: Option<usize>)
    ensures
        match r {
            Some(i) => i == last_index_of(s@, c) && i < s@.len(),
            None => last_index_of(s@, c) == -1,
        },
{
    let mut i: usize = s.len();
    proof {
        lemma_last_index_of(s@, c);
    }
    while i > 0
        invariant
            i <= s@.len(),
            forall|k: int| i <= k < s@.len() ==> s@[k] != c,
            -1 <= last_index_of(s@, c) < s@.len(),
            last_index_of(s@, c) >= 0 ==> s@[last_index_of(s@, c)] == c,
            forall|k: int| last_index_of(s@, c) < k < s@.len() ==> s@[k] != c,
        decreases i,
    {
        i -= 1;
        if s[i] == c {
            return Some(i);
        }
    }
    None
}

// ---------------------------------------------------------------------------
// Splitting and joining

/// The pieces of a sequence between the occurrences of a separator.
pub open spec fn split_on(s: Seq<char>, c: char) -> Seq<Seq<char>>
    decreases s.len(),
{
    if s.len() == 0 {
        seq![Seq::<char>::empty()]
    } else {
        let head = split_on(s.drop_last(), c);
        if s.last() == c {
            head.push(Seq::<char>::empty())
        } else {
            head.drop_last().push(head.last().push(s.last()))
        }
    }
}

/// The views of a list of character vectors.
pub open spec fn views(v: Seq<Vec<char>>) -> Seq<Seq<char>> {
    Seq::new(v.len(), |i: int| v[i]@)
}

/// The views of a list of texts.
pub open spec fn texts(v: Seq<String>) -> Seq<Seq<char>> {
    Seq::new(v.len(), |i: int| v[i]@)
}

/// There is at least one piece.
pub proof fn lemma_split_nonempty(s: Seq<char>, c: char)
    ensures
        split_on(s, c).len() >= 1,
    decreases s.len(),
{
    if s.len() > 0 {
        lemma_split_nonempty(s.drop_last(), c);
    }
}

/// No piece holds the separator.
pub proof fn lemma_split_pieces(s: Seq<char>, c: char)
    ensures
        forall|i: int, k: int|
            0 <= i < split_on(s, c).len() && 0 <= k < split_on(s, c)[i].len()
                ==> #[trigger] split_on(s, c)[i][k] != c,
    decreases s.len(),
{
    if s.len() > 0 {
        lemma_split_pieces(s.drop_last(), c);
        lemma_split_nonempty(s.drop_last(), c);
    }
}

/// Splits at every occurrence of a separator.
pub fn split(s: &[char], c: char) -> (r: Vec<Vec<char>>)
    ensures
        views(r@) == split_on(s@, c),
        r@.len() >= 1,
{
    let mut done: Vec<Vec<char>> = Vec::new();
    let mut cur: Vec<char> = Vec::new();
    let mut i: usize = 0;
    assert(s@.take(0) =~= Seq::<char>::empty());
    assert(views(done@).push(cur@) =~= split_on(s@.take(0), c));
    while i < s.len()
        invariant
            i <= s@.len(),
            views(done@).push(cur@) == split_on(s@.take(i as int), c),
        decreases s.len() - i,
    {
        let ghost before = views(done@);
        let ghost piece_before = cur@;
        let x = s[i];
        assert(s@.take(i + 1).drop_last() =~= s@.take(i as int));
        assert(before.push(piece_before).drop_last() =~= before);
        if x == c {
            let ghost was = done@;
            done.push(cur);
            cur = Vec::new();
            assert(views(done@) =~= before.push(piece_before));
            assert(cur@ =~= Seq::<char>::empty());
        } else {
            cur.push(x);
        }
        i += 1;
        assert(views(done@).push(cur@) =~= split_on(s@.take(i as int), c));
    }
    assert(s@.take(i as int) =~= s@);
    let ghost before = views(done@);
    let ghost last = cur@;
    done.push(cur);
    assert(views(done@) =~= before.push(last));
    done
}

/// The parts in order, with a separator between neighbours.
pub open spec fn join(parts: Seq<Seq<char>>, sep: Seq<char>) -> Seq<char>
    decreases parts.len(),
{
    if parts.len() == 0 {
        Seq::empty()
    } else if parts.len() == 1 {
        parts[0]
    } else {
        join(parts.drop_last(), sep) + sep + parts.last()
    }
}

/// Splitting at a separator and joining with it gives the sequence back.
pub proof fn lemma_split_join(s: Seq<char>, c: char)
    ensures
        join(split_on(s, c), seq![c]) == s,
    decreases s.len(),
{
    if s.len() > 0 {
        let init = s.drop_last();
        let head = split_on(init, c);
        lemma_split_join(init, c);
        lemma_split_nonempty(init, c);
        assert(s =~= init.push(s.last()));
        if s.last() == c {
            let all = head.push(Seq::<char>::empty());
            assert(all.drop_last() =~= head);
            assert(join(all, seq![c]) =~= s);
        } else {
            let all = head.drop_last().push(head.last().push(s.last()));
            assert(all.drop_last() =~= head.drop_last());
            if head.len() == 1 {
                assert(all[0] =~= s);
            } else {
                assert(join(all, seq![c]) =~= s);
            }
        }
    } else {
        assert(split_on(s, c).len() == 1);
        assert(s =~= Seq::empty());
    }
}

/// Splitting where a separator stands in between splits both sides.
pub proof fn lemma_split_concat(a: Seq<char>, b: Seq<char>, c: char)
    ensures
        split_on(a.push(c) + b, c) == split_on(a, c) + split_on(b, c),
    decreases b.len(),
{
    let whole = a.push(c) + b;
    if b.len() == 0 {
        assert(whole =~= a.push(c));
        assert(whole.drop_last() =~= a);
        assert(split_on(whole, c) =~= split_on(a, c) + split_on(b, c));
    } else {
        lemma_split_concat(a, b.drop_last(), c);
        lemma_split_nonempty(b.drop_last(), c);
        assert(whole.drop_last() =~= a.push(c) + b.drop_last());
        assert(whole.last() == b.last());
        let left = split_on(a, c);
        let right = split_on(b.drop_last(), c);
        if b.last() != c {
            assert((left + right).drop_last() =~= left + right.drop_last());
            assert((left + right).last() == right.last());
        }
        assert(split_on(whole, c) =~= left + split_on(b, c));
    }
}

/// A beginning without the separator is the beginning of the first piece.
pub proof fn lemma_split_head(a: Seq<char>, b: Seq<char>, c: char)
    requires
        forall|k: int| 0 <= k < a.len() ==> a[k] != c,
    ensures
        starts_with(split_on(a + b, c)[0], a),
    decreases a.len() + b.len(),
{
    let whole = a + b;
    lemma_split_nonempty(whole, c);
    if b.len() == 0 {
        assert(whole =~= a);
        if a.len() == 0 {
            assert(split_on(whole, c)[0].subrange(0, 0) =~= a);
        } else {
            let init = a.drop_last();
            lemma_split_head(init, Seq::empty(), c);
            assert(init + Seq::<char>::empty() =~= init);
            lemma_split_whole(a, c);
            assert(split_on(whole, c)[0] =~= a);
            assert(a.subrange(0, a.len() as int) =~= a);
        }
    } else {
        lemma_split_head(a, b.drop_last(), c);
        lemma_split_nonempty(whole.drop_last(), c);
        assert(whole.drop_last() =~= a + b.drop_last());
        let head = split_on(whole.drop_last(), c);
        let first = split_on(whole, c)[0];
        if whole.last() == c || head.len() > 1 {
            assert(first == head[0]);
        } else {
            assert(first == head[0].push(whole.last()));
            assert(first.subrange(0, a.len() as int) =~= head[0].subrange(0, a.len() as int));
        }
    }
}

/// A sequence without the separator is its own only piece.
pub proof fn lemma_split_whole(a: Seq<char>, c: char)
    requires
        forall|k: int| 0 <= k < a.len() ==> a[k] != c,
    ensures
        split_on(a, c) == seq![a],
    decreases a.len(),
{
    if a.len() == 0 {
        assert(a =~= Seq::<char>::empty());
        assert(split_on(a, c) =~= seq![a]);
    } else {
        lemma_split_whole(a.drop_last(), c);
        assert(a.last() != c);
        assert(a.drop_last().push(a.last()) =~= a);
        assert(split_on(a, c) =~= seq![a]);
    }
}

/// A character in front that is no separator goes to the first piece.
proof fn lemma_split_prepend(x: char, t: Seq<char>, c: char)
    requires
        x != c,
    ensures
        split_on(seq![x] + t, c).len() == split_on(t, c).len(),
        split_on(seq![x] + t, c)[0] == seq![x] + split_on(t, c)[0],
        forall|i: int|
            0 < i < split_on(t, c).len() ==> #[trigger] split_on(seq![x] + t, c)[i] == split_on(
                t,
                c,
            )[i],
    decreases t.len(),
{
    let whole = seq![x] + t;
    if t.len() == 0 {
        assert(whole =~= seq![x]);
        lemma_split_whole(whole, c);
        assert(split_on(t, c)[0] =~= Seq::<char>::empty());
        assert(seq![x] + Seq::<char>::empty() =~= seq![x]);
    } else {
        let init = t.drop_last();
        lemma_split_prepend(x, init, c);
        lemma_split_nonempty(init, c);
        assert(whole.drop_last() =~= seq![x] + init);
        assert(whole.last() == t.last());
        if t.last() != c && split_on(init, c).len() == 1 {
            assert(split_on(whole, c)[0] =~= seq![x] + split_on(t, c)[0]);
        }
    }
}

/// A piece without white space at its ends is a piece of the trimmed text too.
pub proof fn lemma_trim_pieces(s: Seq<char>, c: char, i: int)
    requires
        !is_space(c),
        0 <= i < split_on(s, c).len(),
        split_on(s, c)[i].len() > 0,
        !is_space(split_on(s, c)[i][0]),
        !is_space(split_on(s, c)[i].last()),
    ensures
        split_on(trim(s), c).len() == split_on(s, c).len(),
        split_on(trim(s), c)[i] == split_on(s, c)[i],
{
    lemma_trim_start_pieces(s, c, i);
    lemma_trim_end_pieces(trim_start(s), c, i);
}

proof fn lemma_trim_start_pieces(s: Seq<char>, c: char, i: int)
    requires
        !is_space(c),
        0 <= i < split_on(s, c).len(),
        split_on(s, c)[i].len() > 0,
        !is_space(split_on(s, c)[i][0]),
    ensures
        split_on(trim_start(s), c).len() == split_on(s, c).len(),
        split_on(trim_start(s), c)[i] == split_on(s, c)[i],
    decreases s.len(),
{
    if s.len() > 0 && is_space(s[0]) {
        let rest = s.drop_first();
        assert(s =~= seq![s[0]] + rest);
        lemma_split_prepend(s[0], rest, c);
        assert(i > 0);
        lemma_trim_start_pieces(rest, c, i);
    }
}

proof fn lemma_trim_end_pieces(s: Seq<char>, c: char, i: int)
    requires
        !is_space(c),
        0 <= i < split_on(s, c).len(),
        split_on(s, c)[i].len() > 0,
        !is_space(split_on(s, c)[i].last()),
    ensures
        split_on(trim_end(s), c).len() == split_on(s, c).len(),
        split_on(trim_end(s), c)[i] == split_on(s, c)[i],
    decreases s.len(),
{
    if s.len() > 0 && is_space(s.last()) {
        lemma_split_nonempty(s.drop_last(), c);
        assert(i < split_on(s, c).len() - 1);
        lemma_trim_end_pieces(s.drop_last(), c, i);
    }
}

/// Trimming takes away nothing but white space.
pub proof fn lemma_trim_holds(s: Seq<char>, c: char)
    requires
        !is_space(c),
        s.contains(c),
    ensures
        trim(s).contains(c),
{
    lemma_trim_start_holds(s, c);
    lemma_trim_end_holds(trim_start(s), c);
}

proof fn lemma_trim_start_holds(s: Seq<char>, c: char)
    requires
        !is_space(c),
        s.contains(c),
    ensures
        trim_start(s).contains(c),
    decreases s.len(),
{
    if s.len() > 0 && is_space(s[0]) {
        let k = choose|k: int| 0 <= k < s.len() && s[k] == c;
        assert(s.drop_first()[k - 1] == c);
        lemma_trim_start_holds(s.drop_first(), c);
    }
}

proof fn lemma_trim_end_holds(s: Seq<char>, c: char)
    requires
        !is_space(c),
        s.contains(c),
    ensures
        trim_end(s).contains(c),
    decreases s.len(),
{
    if s.len() > 0 && is_space(s.last()) {
        let k = choose|k: int| 0 <= k < s.len() && s[k] == c;
        assert(s.drop_last()[k] == c);
        lemma_trim_end_holds(s.drop_last(), c);
    }
}

/// Joining pieces without the separator and splitting the whole gives the pieces back.
pub proof fn lemma_join_split(parts: Seq<Seq<char>>, c: char)
    requires
        parts.len() > 0,
        forall|i: int, k: int|
            0 <= i < parts.len() && 0 <= k < parts[i].len() ==> #[trigger] parts[i][k] != c,
    ensures
        split_on(join(parts, seq![c]), c) == parts,
    decreases parts.len(),
{
    let last = parts.last();
    assert forall|k: int| 0 <= k < last.len() implies last[k] != c by {
        assert(parts[parts.len() - 1][k] != c);
    }
    lemma_split_whole(last, c);
    if parts.len() == 1 {
        assert(parts =~= seq![last]);
    } else {
        let init = parts.drop_last();
        assert forall|i: int, k: int|
            0 <= i < init.len() && 0 <= k < init[i].len() implies #[trigger] init[i][k] != c by {
            assert(parts[i][k] != c);
        }
        lemma_join_split(init, c);
        lemma_split_concat(join(init, seq![c]), last, c);
        assert(join(init, seq![c]) + seq![c] + last =~= join(init, seq![c]).push(c) + last);
        assert(init + seq![last] =~= parts);
    }
}

/// Appends characters to a growing text.
pub fn extend(out: &mut Vec<char>, more: &[char])
    ensures
        final(out)@ == old(out)@ + more@,
{
    let mut i: usize = 0;
    assert(out@ =~= old(out)@ + more@.take(0));
    while i < more.len()
        invariant
            i <= more@.len(),
            out@ == old(out)@ + more@.take(i as int),
        decreases more.len() - i,
    {
        out.push(more[i]);
        i += 1;
        assert(more@.take(i as int) =~= more@.take(i - 1).push(more@[i - 1]));
        assert(out@ =~= old(out)@ + more@.take(i as int));
    }
    assert(more@.take(i as int) =~= more@);
}

/// Appends a text to a growing text.
pub fn extend_text(out: &mut Vec<char>, more: &str)
    ensures
        final(out)@ == old(out)@ + more@,
{
    let m = to_chars(more);
    extend(out, m.as_slice());
}

/// Joins the parts with a separator between neighbours.
pub fn joined(parts: &Vec<Vec<char>>, sep: &str) -> (r: Vec<char>)
    ensures
        r@ == join(views(parts@), sep@),
{
    let mut out: Vec<char> = Vec::new();
    let mut i: usize = 0;
    assert(views(parts@).take(0) =~= Seq::empty());
    while i < parts.len()
        invariant
            i <= parts@.len(),
            out@ == join(views(parts@).take(i as int), sep@),
        decreases parts.len() - i,
    {
        let ghost all = views(parts@);
        assert(all.take(i + 1).drop_last() =~= all.take(i as int));
        assert(all.take(i + 1).last() == parts@[i as int]@);
        if i > 0 {
            extend_text(&mut out, sep);
        } else {
            assert(all.take(0) =~= Seq::empty());
        }
        extend(&mut out, parts[i].as_slice());
        i += 1;
        assert(out@ =~= join(all.take(i as int), sep@));
    }
    assert(views(parts@).take(i as int) =~= views(parts@));
    out
}

/// Replaces every occurrence of `p`, from the left, by `t`.
pub open spec fn replace(s: Seq<char>, p: Seq<char>, t: Seq<char>) -> Seq<char>
    decreases s.len(),
{
    if p.len() == 0 {
        s
    } else {
        match find_from(s, p, 0) {
            Some(i) => {
                if 0 <= i && i + p.len() <= s.len() {
                    s.take(i) + t + replace(s.skip(i + p.len()), p, t)
                } else {
                    s
                }
            },
            None => s,
        }
    }
}

proof fn lemma_find_shift(s: Seq<char>, p: Seq<char>, base: int, from: int)
    requires
        0 <= base <= s.len(),
        from >= 0,
    ensures
        match find_from(s.skip(base), p, from) {
            Some(i) => find_from(s, p, base + from) == Some(base + i),
            None => find_from(s, p, base + from) is None,
        },
    decreases s.len() + 1 - from,
{
    let t = s.skip(base);
    if from + p.len() <= t.len() {
        assert(t.subrange(from, from + p.len()) =~= s.subrange(base + from, base + from + p.len()));
        if !occurs_at(t, p, from) {
            lemma_find_shift(s, p, base, from + 1);
        }
    }
}

/// Replaces every occurrence of `p`, from the left, by `t`.
pub fn replaced(s: &[char], p: &[char], t: &[char]) -> (r: Vec<char>)
    requires
        p@.len() > 0,
    ensures
        r@ == replace(s@, p@, t@),
{
    let mut out: Vec<char> = Vec::new();
    let mut at: usize = 0;
    assert(s@.skip(0) =~= s@);
    assert(out@ + replace(s@.skip(0), p@, t@) =~= replace(s@, p@, t@));
    loop
        invariant
            at <= s@.len(),
            p@.len() > 0,
            out@ + replace(s@.skip(at as int), p@, t@) == replace(s@, p@, t@),
        decreases s.len() - at,
    {
        proof {
            lemma_find_shift(s@, p@, at as int, 0);
        }
        match find(s, p, at) {
            Some(i) => {
                let ghost rest = s@.skip(at as int);
                let ghost was = out@;
                let mid = piece(s, at, i);
                assert(mid@ =~= rest.take(i - at));
                assert(rest.skip(i - at + p@.len()) =~= s@.skip(i + p@.len()));
                extend(&mut out, mid.as_slice());
                extend(&mut out, t);
                at = i + p.len();
                assert(out@ + replace(s@.skip(at as int), p@, t@) =~= was + (mid@ + t@ + replace(
                    s@.skip(at as int),
                    p@,
                    t@,
                )));
            },
            None => {
                let tail = piece(s, at, s.len());
                assert(tail@ =~= s@.skip(at as int));
                extend(&mut out, tail.as_slice());
                return out;
            },
        }
    }
}

// ---------------------------------------------------------------------------
// Letters and digits

/// The lower case of an ASCII letter; every other character is kept.
pub open spec fn lower_char(c: char) -> char {
    if 'A' <= c && c <= 'Z' {
        ((c as u32 + 32) as u32) as char
    } else {
        c
    }
}

/// A sequence with its ASCII letters in lower case.
pub open spec fn ascii_lower(s: Seq<char>) -> Seq<char> {
    Seq::new(s.len(), |i: int| lower_char(s[i]))
}

/// The lower case of an ASCII letter; every other character is kept.
pub fn char_lower(c: char) -> (r: char)
    ensures
        r == lower_char(c),
{
    if 'A' <= c && c <= 'Z' {
        ((c as u8) + 32) as char
    } else {
        c
    }
}

/// The characters with ASCII letters in lower case.
pub fn lowered(s: &[char]) -> (r: Vec<char>)
    ensures
        r@ == ascii_lower(s@),
{
    let mut out: Vec<char> = Vec::new();
    let mut i: usize = 0;
    while i < s.len()
        invariant
            i <= s@.len(),
            out@.len() == i,
            forall|k: int| 0 <= k < i ==> out@[k] == lower_char(s@[k]),
        decreases s.len() - i,
    {
        out.push(char_lower(s[i]));
        i += 1;
    }
    assert(out@ =~= ascii_lower(s@));
    out
}

/// Tells whether a character is an ASCII digit.
pub open spec fn is_digit(c: char) -> bool {
    '0' <= c && c <= '9'
}

/// The value of an ASCII digit.
pub open spec fn digit_value(c: char) -> int {
    c as int - '0' as int
}

/// Tells whether every character is an ASCII digit.
pub open spec fn all_digits(s: Seq<char>) -> bool {
    forall|i: int| 0 <= i < s.len() ==> is_digit(#[trigger] s[i])
}

/// The number that a run of digits spells.
pub open spec fn digits_value(s: Seq<char>) -> int
    decreases s.len(),
{
    if s.len() == 0 {
        0
    } else {
        digits_value(s.drop_last()) * 10 + digit_value(s.last())
    }
}

/// The number that a sequence with an optional sign spells.
pub open spec fn integer_value(s: Seq<char>) -> Option<int> {
    if s.len() == 0 {
        None
    } else if s[0] == '+' || s[0] == '-' {
        let body = s.drop_first();
        if body.len() > 0 && all_digits(body) {
            if s[0] == '-' {
                Some(-digits_value(body))
            } else {
                Some(digits_value(body))
            }
        } else {
            None
        }
    } else if all_digits(s) {
        Some(digits_value(s))
    } else {
        None
    }
}

/// The `i64` that a sequence spells: an optional sign and digits, in range.
pub open spec fn i64_value(s: Seq<char>) -> Option<i64> {
    match integer_value(s) {
        Some(v) => if i64::MIN <= v <= i64::MAX {
            Some(v as i64)
        } else {
            None
        },
        None => None,
    }
}

/// The `u64` that a sequence spells: an optional plus sign and digits, in range.
pub open spec fn u64_value(s: Seq<char>) -> Option<u64> {
    if s.len() > 0 && s[0] == '-' {
        None
    } else {
        match integer_value(s) {
            Some(v) => if 0 <= v <= u64::MAX {
                Some(v as u64)
            } else {
                None
            },
            None => None,
        }
    }
}

/// A run of digits spells a number that is not negative, and longer prefixes spell no less.
pub proof fn lemma_digits_value(s: Seq<char>, k: int)
    requires
        all_digits(s),
        0 <= k <= s.len(),
    ensures
        0 <= digits_value(s.take(k)) <= digits_value(s),
    decreases s.len(),
{
    if k == s.len() {
        assert(s.take(k) =~= s);
        if s.len() > 0 {
            assert(all_digits(s.drop_last())) by {
                assert forall|i: int| 0 <= i < s.drop_last().len() implies is_digit(
                    #[trigger] s.drop_last()[i],
                ) by {
                    assert(is_digit(s[i]));
                }
            }
            assert(is_digit(s.last()));
            lemma_digits_value(s.drop_last(), s.len() - 1);
            assert(s.drop_last().take(s.len() - 1) =~= s.drop_last());
        }
    } else {
        assert(all_digits(s.drop_last())) by {
            assert forall|i: int| 0 <= i < s.drop_last().len() implies is_digit(
                #[trigger] s.drop_last()[i],
            ) by {
                assert(is_digit(s[i]));
            }
        }
        assert(is_digit(s.last()));
        lemma_digits_value(s.drop_last(), k);
        assert(s.drop_last().take(k) =~= s.take(k));
    }
}

/// The number that a run of digits spells, where it fits.
fn digits_number(s: &[char], from: usize) -> (r: Option<u64>)
    requires
        from <= s@.len(),
    ensures
        match r {
            Some(v) => all_digits(s@.skip(from as int)) && v == digits_value(s@.skip(from as int)),
            None => !all_digits(s@.skip(from as int)) || digits_value(s@.skip(from as int))
                > u64::MAX,
        },
{
    let ghost t = s@.skip(from as int);
    let mut v: u64 = 0;
    let mut i: usize = from;
    let mut fits: bool = true;
    assert(t.take(0) =~= Seq::<char>::empty());
    while i < s.len()
        invariant
            from <= i <= s@.len(),
            t == s@.skip(from as int),
            forall|k: int| 0 <= k < i - from ==> is_digit(#[trigger] t[k]),
            fits ==> v == digits_value(t.take(i - from)),
            !fits ==> digits_value(t.take(i - from)) > u64::MAX,
        decreases s.len() - i,
    {
        let c = s[i];
        assert(t[i - from] == c);
        if !('0' <= c && c <= '9') {
            assert(!is_digit(t[i - from]));
            return None;
        }
        let d: u64 = (c as u32 - '0' as u32) as u64;
        assert(t.take(i - from + 1).drop_last() =~= t.take(i - from));
        assert(t.take(i - from + 1).last() == c);
        if fits {
            match v.checked_mul(10) {
                Some(w) => match w.checked_add(d) {
                    Some(x) => {
                        v = x;
                    },
                    None => {
                        fits = false;
                    },
                },
                None => {
                    fits = false;
                },
            }
        }
        i += 1;
    }
    assert(t.take(i - from) =~= t);
    if fits {
        Some(v)
    } else {
        None
    }
}

/// Reads an `i64` from its decimal form.
pub fn parse_i64(s: &[char]) -> (r: Option<i64>)
    ensures
        r == i64_value(s@),
{
    if s.len() == 0 {
        return None;
    }
    assert(s@.skip(0) =~= s@);
    assert(s@.skip(1) =~= s@.drop_first());
    let first = s[0];
    if first == '+' || first == '-' {
        if s.len() == 1 {
            return None;
        }
        proof {
            if all_digits(s@.skip(1)) {
                lemma_digits_value(s@.skip(1), 0);
            }
        }
        match digits_number(s, 1) {
            Some(v) => {
                if first == '-' {
                    if v <= 0x7fff_ffff_ffff_ffff {
                        Some(-(v as i64))
                    } else if v == 0x8000_0000_0000_0000 {
                        Some(i64::MIN)
                    } else {
                        None
                    }
                } else if v <= 0x7fff_ffff_ffff_ffff {
                    Some(v as i64)
                } else {
                    None
                }
            },
            None => None,
        }
    } else {
        match digits_number(s, 0) {
            Some(v) => if v <= 0x7fff_ffff_ffff_ffff {
                Some(v as i64)
            } else {
                None
            },
            None => None,
        }
    }
}

/// Reads a `u64` from its decimal form.
pub fn parse_u64(s: &[char]) -> (r: Option<u64>)
    ensures
        r == u64_value(s@),
{
    if s.len() == 0 {
        return None;
    }
    assert(s@.skip(0) =~= s@);
    assert(s@.skip(1) =~= s@.drop_first());
    proof {
        if all_digits(s@) {
            lemma_digits_value(s@, 0);
        }
        if all_digits(s@.skip(1)) {
            lemma_digits_value(s@.skip(1), 0);
        }
    }
    let first = s[0];
    if first == '-' {
        return None;
    }
    if first == '+' {
        if s.len() == 1 {
            return None;
        }
        digits_number(s, 1)
    } else {
        digits_number(s, 0)
    }
}

/// The decimal digits of a number that is not negative.
pub open spec fn digits_of(n: nat) -> Seq<char>
    decreases n,
{
    if n < 10 {
        seq![(n + 48) as char]
    } else {
        digits_of(n / 10).push((n % 10 + 48) as char)
    }
}

/// The decimal form of a number.
pub open spec fn decimal(n: int) -> Seq<char> {
    if n < 0 {
        seq!['-'] + digits_of((-n) as nat)
    } else {
        digits_of(n as nat)
    }
}

/// The digits of a number spell it.
pub proof fn lemma_digits_of(n: nat)
    ensures
        digits_of(n).len() >= 1,
        all_digits(digits_of(n)),
        digits_value(digits_of(n)) == n,
    decreases n,
{
    if n < 10 {
        let s = digits_of(n);
        assert(s.drop_last() =~= Seq::<char>::empty());
        assert(digits_value(s.drop_last()) == 0);
        assert(s.last() == (n + 48) as char);
    } else {
        lemma_digits_of(n / 10);
        let s = digits_of(n);
        assert(s.drop_last() =~= digits_of(n / 10));
        assert(s.last() == (n % 10 + 48) as char);
        assert forall|i: int| 0 <= i < s.len() implies is_digit(#[trigger] s[i]) by {
            if i < s.len() - 1 {
                assert(is_digit(digits_of(n / 10)[i]));
            }
        }
    }
}

/// Reading the decimal form of an `i64` gives the number back.
pub proof fn lemma_decimal_round_trip(n: i64)
    ensures
        i64_value(decimal(n as int)) == Some(n),
{
    if n < 0 {
        let m = (-(n as int)) as nat;
        lemma_digits_of(m);
        assert(decimal(n as int).drop_first() =~= digits_of(m));
    } else {
        lemma_digits_of(n as nat);
        assert(is_digit(decimal(n as int)[0]));
    }
}

/// The decimal digits of a number.
pub fn u64_digits(n: u64) -> (r: Vec<char>)
    ensures
        r@ == digits_of(n as nat),
    decreases n,
{
    if n < 10 {
        let mut out: Vec<char> = Vec::new();
        out.push(((n as u8) + 48) as char);
        assert(out@ =~= digits_of(n as nat));
        out
    } else {
        let mut out = u64_digits(n / 10);
        out.push((((n % 10) as u8) + 48) as char);
        out
    }
}

/// The decimal form of a number.
pub fn i64_digits(n: i64) -> (r: Vec<char>)
    ensures
        r@ == decimal(n as int),
{
    if n < 0 {
        let m: u64 = if n == i64::MIN {
            0x8000_0000_0000_0000
        } else {
            (-n) as u64
        };
        let mut out: Vec<char> = Vec::new();
        out.push('-');
        let d = u64_digits(m);
        extend(&mut out, d.as_slice());
        assert(out@ =~= decimal(n as int));
        out
    } else {
        u64_digits(n as u64)
    }
}

/// The decimal form of a number.
pub fn i64_text(n: i64) -> (r: String)
    ensures
        r@ == decimal(n as int),
{
    let d = i64_digits(n);
    to_text(d.as_slice())
}

/// Concatenates two texts.
pub fn concat2(a: &str, b: &str) -> (r: String)
    ensures
        r@ == a@ + b@,
{
    let mut out = to_chars(a);
    extend_text(&mut out, b);
    to_text(out.as_slice())
}

/// Concatenates three texts.
pub fn concat3(a: &str, b: &str, c: &str) -> (r: String)
    ensures
        r@ == a@ + b@ + c@,
{
    let mut out = to_chars(a);
    extend_text(&mut out, b);
    extend_text(&mut out, c);
    to_text(out.as_slice())
}

/// A copy of a text.
pub fn copy_text(a: &str) -> (r: String)
    ensures
        r@ == a@,
{
    a.to_owned()
}

// ---------------------------------------------------------------------------
// Lines and words

/// A line without a carriage return at its end.
pub open spec fn without_return(s: Seq<char>) -> Seq<char> {
    if s.len() > 0 && s.last() == '\r' {
        s.drop_last()
    } else {
        s
    }
}

/// The lines of a text: the pieces between line feeds, without a carriage return before the
/// line feed. A line feed at the very end begins no further line.
pub open spec fn lines_of(s: Seq<char>) -> Seq<Seq<char>> {
    let parts = split_on(s, '\n');
    let kept = if parts.last().len() == 0 {
        parts.drop_last()
    } else {
        parts
    };
    Seq::new(
        kept.len(),
        |i: int|
            if i < parts.len() - 1 {
                without_return(kept[i])
            } else {
                kept[i]
            },
    )
}

/// The lines of a text.
pub fn lines(s: &[char]) -> (r: Vec<Vec<char>>)
    ensures
        views(r@) == lines_of(s@),
{
    let parts = split(s, '\n');
    let ghost all = views(parts@);
    let n: usize = if parts[parts.len() - 1].len() == 0 {
        parts.len() - 1
    } else {
        parts.len()
    };
    let mut out: Vec<Vec<char>> = Vec::new();
    let mut i: usize = 0;
    while i < n
        invariant
            i <= n <= parts@.len(),
            out@.len() == i,
            forall|k: int|
                0 <= k < i ==> (#[trigger] out@[k])@ == (if k < parts@.len() - 1 {
                    without_return(parts@[k]@)
                } else {
                    parts@[k]@
                }),
        decreases n - i,
    {
        let part = &parts[i];
        let len: usize = part.len();
        if i < parts.len() - 1 && len > 0 && part[len - 1] == '\r' {
            let cut = piece(part.as_slice(), 0, len - 1);
            assert(cut@ =~= part@.drop_last());
            out.push(cut);
        } else {
            let kept = piece(part.as_slice(), 0, len);
            assert(kept@ =~= part@);
            out.push(kept);
        }
        i += 1;
    }
    assert(views(out@) =~= lines_of(s@));
    out
}

/// The words of a text: the runs of characters between white space.
pub open spec fn words_of(s: Seq<char>) -> Seq<Seq<char>>
    decreases s.len(),
{
    if s.len() == 0 {
        Seq::empty()
    } else if is_space(s.last()) {
        words_of(s.drop_last())
    } else {
        let before = words_of(s.drop_last());
        if s.len() > 1 && !is_space(s[s.len() - 2]) && before.len() > 0 {
            before.drop_last().push(before.last().push(s.last()))
        } else {
            before.push(seq![s.last()])
        }
    }
}

/// The words of a text.
pub fn words(s: &[char]) -> (r: Vec<Vec<char>>)
    ensures
        views(r@) == words_of(s@),
{
    let mut out: Vec<Vec<char>> = Vec::new();
    let mut i: usize = 0;
    assert(s@.take(0) =~= Seq::<char>::empty());
    assert(views(out@) =~= Seq::<Seq<char>>::empty());
    while i < s.len()
        invariant
            i <= s@.len(),
            views(out@) == words_of(s@.take(i as int)),
        decreases s.len() - i,
    {
        let ghost before = views(out@);
        let ghost sofar = s@.take(i + 1);
        assert(sofar.drop_last() =~= s@.take(i as int));
        let c = s[i];
        assert(sofar.last() == c);
        if !char_is_space(c) {
            if i > 0 && !char_is_space(s[i - 1]) && out.len() > 0 {
                let mut word = out.pop().unwrap();
                let ghost was = word@;
                word.push(c);
                let ghost now = word@;
                assert(was == before.last());
                out.push(word);
                assert(views(out@) =~= before.drop_last().push(now));
                assert(views(out@) =~= words_of(sofar));
            } else {
                let mut word: Vec<char> = Vec::new();
                word.push(c);
                assert(word@ =~= seq![c]);
                out.push(word);
                assert(views(out@) =~= before.push(seq![c]));
                assert(views(out@) =~= words_of(sofar));
            }
        }
        i += 1;
    }
    assert(s@.take(i as int) =~= s@);
    out
}

/// A sequence with every occurrence of a character turned into another one.
pub open spec fn substituted(s: Seq<char>, from: char, to: char) -> Seq<char> {
    Seq::new(
        s.len(),
        |i: int|
            if s[i] == from {
                to
            } else {
                s[i]
            },
    )
}

/// The characters with every occurrence of one turned into another.
pub fn replaced_char(s: &[char], from: char, to: char) -> (r: Vec<char>)
    ensures
        r@ == substituted(s@, from, to),
{
    let mut out: Vec<char> = Vec::new();
    let mut i: usize = 0;
    while i < s.len()
        invariant
            i <= s@.len(),
            out@.len() == i,
            forall|k: int|
                0 <= k < i ==> out@[k] == (if s@[k] == from {
                    to
                } else {
                    s@[k]
                }),
        decreases s.len() - i,
    {
        if s[i] == from {
            out.push(to);
        } else {
            out.push(s[i]);
        }
        i += 1;
    }
    assert(out@ =~= substituted(s@, from, to));
    out
}

/// Tells whether two texts are the same, the case of ASCII letters aside.
pub open spec fn same_ignoring_case(a: Seq<char>, b: Seq<char>) -> bool {
    ascii_lower(a) == ascii_lower(b)
}

/// Tells whether the characters spell a text, the case of ASCII letters aside.
pub fn is_text_ignoring_case(a: &[char], b: &str) -> (r: bool)
    ensures
        r == same_ignoring_case(a@, b@),
{
    let x = lowered(a);
    let other = to_chars(b);
    let y = lowered(other.as_slice());
    same(x.as_slice(), y.as_slice())
}

// ---------------------------------------------------------------------------
// Lines, words and letters

/// Lines that are written one behind the other, with a line feed between them, are read back; a
/// line feed behind the last adds none.
pub proof fn law_lines_read_back(parts: Seq<Seq<char>>)
    requires
        parts.len() > 0,
        parts.last().len() > 0,
        forall|i: int, k: int|
            0 <= i < parts.len() && 0 <= k < parts[i].len() ==> #[trigger] parts[i][k] != '\n',
        forall|i: int|
            0 <= i < parts.len() ==> (#[trigger] parts[i]).len() == 0 || parts[i].last() != '\r',
    ensures
        lines_of(join(parts, seq!['\n'])) == parts,
        lines_of(join(parts, seq!['\n']).push('\n')) == parts,
{
    let text = join(parts, seq!['\n']);
    lemma_join_split(parts, '\n');
    assert forall|i: int| 0 <= i < parts.len() implies without_return(#[trigger] parts[i])
        == parts[i] by {}
    assert(lines_of(text) =~= parts);
    let ended = text.push('\n');
    assert(ended.drop_last() =~= text);
    assert(split_on(ended, '\n') == parts.push(Seq::<char>::empty()));
    assert(parts.push(Seq::<char>::empty()).drop_last() =~= parts);
    assert(lines_of(ended) =~= parts);
}

/// A carriage return before the line feed is no part of the line.
pub proof fn law_return_is_dropped(a: Seq<char>, b: Seq<char>)
    requires
        b.len() > 0,
        forall|k: int| 0 <= k < a.len() ==> a[k] != '\n',
        forall|k: int| 0 <= k < b.len() ==> b[k] != '\n',
    ensures
        lines_of(a.push('\r').push('\n') + b) == seq![a, b],
{
    let first = a.push('\r');
    assert forall|k: int| 0 <= k < first.len() implies first[k] != '\n' by {}
    lemma_split_concat(first, b, '\n');
    lemma_split_whole(first, '\n');
    lemma_split_whole(b, '\n');
    let whole = first.push('\n') + b;
    assert(split_on(whole, '\n') =~= seq![first, b]);
    assert(without_return(first) =~= a);
    assert(lines_of(whole) =~= seq![a, b]);
}

/// A run without white space is one word.
pub proof fn law_run_is_a_word(w: Seq<char>)
    requires
        w.len() > 0,
        forall|k: int| 0 <= k < w.len() ==> !is_space(#[trigger] w[k]),
    ensures
        words_of(w) == seq![w],
    decreases w.len(),
{
    assert(!is_space(w[w.len() - 1]));
    let init = w.drop_last();
    if w.len() == 1 {
        assert(words_of(init) =~= Seq::<Seq<char>>::empty());
        assert(seq![w.last()] =~= w);
        assert(words_of(w) =~= seq![w]);
    } else {
        assert forall|k: int| 0 <= k < init.len() implies !is_space(#[trigger] init[k]) by {
            assert(init[k] == w[k]);
        }
        law_run_is_a_word(init);
        assert(!is_space(w[w.len() - 2]));
        assert(init.push(w.last()) =~= w);
        assert(words_of(w) =~= seq![w]);
    }
}

/// White space parts words: the words of two texts with white space between them are those of the
/// one and those of the other.
pub proof fn law_space_parts_words(a: Seq<char>, c: char, b: Seq<char>)
    requires
        is_space(c),
    ensures
        words_of(a.push(c) + b) == words_of(a) + words_of(b),
    decreases b.len(),
{
    let whole = a.push(c) + b;
    if b.len() == 0 {
        assert(whole =~= a.push(c));
        assert(whole.drop_last() =~= a);
        assert(words_of(whole) =~= words_of(a) + words_of(b));
    } else {
        let init = b.drop_last();
        law_space_parts_words(a, c, init);
        assert(whole.drop_last() =~= a.push(c) + init);
        assert(whole.last() == b.last());
        lemma_last_word(b.drop_last());
        if !is_space(b.last()) {
            if b.len() > 1 {
                assert(whole[whole.len() - 2] == b[b.len() - 2]);
            } else {
                assert(whole[whole.len() - 2] == c);
                assert(words_of(init) =~= Seq::<Seq<char>>::empty());
            }
        }
        assert(words_of(whole) =~= words_of(a) + words_of(b));
    }
}

proof fn lemma_last_word(s: Seq<char>)
    ensures
        s.len() > 0 && !is_space(s.last()) ==> words_of(s).len() > 0,
{
}

/// White space around a text is taken off, and nothing of the text.
pub proof fn law_trim_takes_space_off(a: Seq<char>, s: Seq<char>, b: Seq<char>)
    requires
        forall|k: int| 0 <= k < a.len() ==> is_space(#[trigger] a[k]),
        forall|k: int| 0 <= k < b.len() ==> is_space(#[trigger] b[k]),
        s.len() > 0 ==> !is_space(s[0]) && !is_space(s.last()),
    ensures
        trim(a + s + b) == s,
    decreases a.len() + b.len(),
{
    let whole = a + s + b;
    if a.len() > 0 {
        assert(is_space(a[0]));
        assert(whole[0] == a[0]);
        let rest = a.drop_first();
        assert forall|k: int| 0 <= k < rest.len() implies is_space(#[trigger] rest[k]) by {
            assert(rest[k] == a[k + 1]);
        }
        assert(whole.drop_first() =~= rest + s + b);
        law_trim_takes_space_off(rest, s, b);
    } else if s.len() == 0 {
        assert(whole =~= b);
        if b.len() > 0 {
            assert(is_space(b[0]));
            let rest = b.drop_first();
            assert forall|k: int| 0 <= k < rest.len() implies is_space(#[trigger] rest[k]) by {
                assert(rest[k] == b[k + 1]);
            }
            assert(rest =~= a + s + rest);
            law_trim_takes_space_off(a, s, rest);
        } else {
            assert(trim(whole) =~= s);
        }
    } else {
        assert(whole[0] == s[0]);
        assert(whole =~= s + b);
        lemma_trim_end_off(s, b);
    }
}

proof fn lemma_trim_end_off(s: Seq<char>, b: Seq<char>)
    requires
        forall|k: int| 0 <= k < b.len() ==> is_space(#[trigger] b[k]),
        s.len() > 0,
        !is_space(s.last()),
    ensures
        trim_end(s + b) == s,
    decreases b.len(),
{
    let whole = s + b;
    if b.len() > 0 {
        assert(is_space(b[b.len() - 1]));
        assert(whole.last() == b.last());
        let rest = b.drop_last();
        assert forall|k: int| 0 <= k < rest.len() implies is_space(#[trigger] rest[k]) by {
            assert(rest[k] == b[k]);
        }
        assert(whole.drop_last() =~= s + rest);
        lemma_trim_end_off(s, rest);
    } else {
        assert(whole =~= s);
    }
}

/// What stands behind a prefix is all that is left of it.
pub proof fn law_prefix_taken_off(p: Seq<char>, s: Seq<char>)
    ensures
        strip_prefix(p + s, p) == Some(s),
{
    let whole = p + s;
    assert(whole.subrange(0, p.len() as int) =~= p);
    assert(whole.skip(p.len() as int) =~= s);
}

/// A text and the same in small letters are the same, the case aside, and only ASCII letters have a
/// case.
pub proof fn law_case_is_ignored(a: Seq<char>, b: Seq<char>)
    ensures
        same_ignoring_case(a, ascii_lower(a)),
        same_ignoring_case(a, b) ==> a.len() == b.len() && forall|k: int|
            0 <= k < a.len() ==> #[trigger] a[k] == b[k] || a[k] as int - b[k] as int == 32 || b[k] as int
                - a[k] as int == 32,
{
    assert(ascii_lower(ascii_lower(a)) =~= ascii_lower(a));
    if same_ignoring_case(a, b) {
        assert(ascii_lower(a).len() == a.len());
        assert(ascii_lower(b).len() == b.len());
        assert forall|k: int| 0 <= k < a.len() implies #[trigger] a[k] == b[k] || a[k] as int
            - b[k] as int == 32 || b[k] as int - a[k] as int == 32 by {
            assert(ascii_lower(a)[k] == ascii_lower(b)[k]);
        }
    }
}

/// A number that is written in digits is read back.
pub proof fn law_digits_read_back(n: u64)
    ensures
        u64_value(digits_of(n as nat)) == Some(n),
{
    lemma_digits_of(n as nat);
    assert(is_digit(digits_of(n as nat)[0]));
}

/// What is to be replaced is replaced where it stands, and what stands around it stays; where it
/// does not stand, nothing changes.
pub proof fn law_replaced_in_its_place(a: Seq<char>, p: Seq<char>, b: Seq<char>, t: Seq<char>)
    requires
        p.len() > 0,
        forall|k: int| 0 <= k < a.len() ==> a[k] != p[0],
    ensures
        replace(a + p + b, p, t) == a + t + replace(b, p, t),
        replace(a, p, t) == a,
{
    let s = a + p + b;
    lemma_find_is_leftmost(s, p, 0);
    assert(s.subrange(a.len() as int, a.len() + p.len() as int) =~= p);
    assert(occurs_at(s, p, a.len() as int));
    let i = find_from(s, p, 0)->0;
    if i < a.len() {
        assert(s.subrange(i, i + p.len())[0] == p[0]);
        assert(s[i] == a[i]);
    }
    assert(i == a.len());
    assert(s.take(i) =~= a);
    assert(s.skip(i + p.len()) =~= b);
    lemma_find_is_leftmost(a, p, 0);
    if find_from(a, p, 0) is Some {
        let j = find_from(a, p, 0)->0;
        assert(a.subrange(j, j + p.len())[0] == p[0]);
    }
}

/// A place that is not the one to be filled stays.
pub proof fn lemma_other_place(
    a: Seq<char>,
    b: Seq<char>,
    q: Seq<char>,
    p: Seq<char>,
    t: Seq<char>,
    m: int,
)
    requires
        p.len() > 2,
        q.len() > 2,
        p[0] == '{',
        p[1] == '{',
        p[2] != '{',
        q[0] == '{',
        q[1] == '{',
        2 < m < p.len(),
        m < q.len(),
        p[m] != q[m],
        forall|k: int| 2 <= k < q.len() ==> q[k] != '{',
        forall|k: int| 0 <= k < a.len() ==> a[k] != '{',
        forall|k: int| 0 <= k < b.len() ==> b[k] != '{',
    ensures
        replace(a + q + b, p, t) == a + q + b,
{
    let s = a + q + b;
    lemma_find_is_leftmost(s, p, 0);
    if find_from(s, p, 0) is Some {
        let i = find_from(s, p, 0)->0;
        let part = s.subrange(i, i + p.len());
        assert(part[0] == '{' && part[1] == '{' && part[m] == p[m]);
        assert(s[i] == '{' && s[i + 1] == '{' && s[i + m] == p[m]);
        let n = a.len() as int;
        if i < n {
            assert(s[i] == a[i]);
        } else if i >= n + q.len() {
            assert(s[i] == b[i - n - q.len()]);
        } else {
            assert(s[i] == q[i - n]);
            if i == n {
                assert(s[n + m] == q[m]);
            } else if i == n + 1 {
                assert(s[n + 2] == q[2]);
            }
        }
    }
}

/// A place is filled where it stands once.
pub proof fn lemma_place_filled(a: Seq<char>, b: Seq<char>, p: Seq<char>, t: Seq<char>)
    requires
        p.len() > 0,
        p[0] == '{',
        forall|k: int| 0 <= k < a.len() ==> a[k] != '{',
        forall|k: int| 0 <= k < b.len() ==> b[k] != '{',
    ensures
        replace(a + p + b, p, t) == a + t + b,
{
    law_replaced_in_its_place(a, p, b, t);
    law_replaced_in_its_place(b, p, b, t);
}

/// Where no place stands, none is filled.
pub proof fn lemma_no_place(s: Seq<char>, p: Seq<char>, t: Seq<char>)
    requires
        p.len() > 0,
        p[0] == '{',
        forall|k: int| 0 <= k < s.len() ==> s[k] != '{',
    ensures
        replace(s, p, t) == s,
{
    law_replaced_in_its_place(s, p, s, t);
}

} // verus!
