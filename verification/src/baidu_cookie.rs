//! Login data of the cloud storage: cookies and tokens as users paste them.

use crate::session::opt_text;
use crate::text::{
    ascii_lower, begins, concat2, contains, copy_text, extend, extend_text, index_of, is_text,
    is_text_ignoring_case, join, joined, lemma_index_of, lemma_split_whole, lowered, piece,
    position, replaced_char, same_ignoring_case, split, split_on, starts_with, substituted,
    to_chars, to_text, trim, trimmed, views,
};
use vstd::prelude::*;

verus! {

/// A cookie as it is kept: its header, and the tokens in it.
pub struct ParsedBaiduCookie {
    pub header: String,
    pub bduss: Option<String>,
    pub stoken: Option<String>,
}

/// The login data of an account.
pub struct BaiduLoginCredential {
    pub baidu_uid: String,
    pub login_type: String,
    pub cookie: Option<String>,
    pub bduss: Option<String>,
    pub stoken: Option<String>,
    pub last_attempt_time: Option<String>,
    pub last_attempt_error: Option<String>,
}

/// A text whose line ends count as semicolons.
pub open spec fn one_line(s: Seq<char>) -> Seq<char> {
    substituted(substituted(s, '\r', ';'), '\n', ';')
}

fn to_one_line(s: &[char]) -> (r: Vec<char>)
    ensures
        r@ == one_line(s@),
{
    let a = replaced_char(s, '\r', ';');
    replaced_char(a.as_slice(), '\n', ';')
}

/// The key of a part: what stands before the first equals sign, white space aside.
pub open spec fn part_key(token: Seq<char>) -> Seq<char> {
    trim(token.take(index_of(token, '=')))
}

/// The value of a part: what stands behind the first equals sign, white space aside.
pub open spec fn part_value(token: Seq<char>) -> Seq<char> {
    trim(token.skip(index_of(token, '=') + 1))
}

/// Tells whether a part has an equals sign.
pub open spec fn is_pair(token: Seq<char>) -> bool {
    index_of(token, '=') < token.len()
}

fn pair_of(token: &[char]) -> (r: Option<(Vec<char>, Vec<char>)>)
    ensures
        match r {
            Some(p) => is_pair(token@) && p.0@ == part_key(token@) && p.1@ == part_value(token@),
            None => !is_pair(token@),
        },
{
    match position(token, '=') {
        Some(at) => {
            let len: usize = token.len();
            assert(at < len);
            let left = piece(token, 0, at);
            let right = piece(token, at + 1, len);
            assert(left@ =~= token@.take(at as int));
            assert(right@ =~= token@.skip(at + 1));
            Some((trimmed(left.as_slice()), trimmed(right.as_slice())))
        },
        None => None,
    }
}

/// Tells whether a key is an attribute of a cookie and no part of it.
pub open spec fn is_attribute(key: Seq<char>) -> bool {
    let k = ascii_lower(key);
    k == "path"@ || k == "domain"@ || k == "expires"@ || k == "max-age"@ || k == "secure"@ || k
        == "httponly"@ || k == "samesite"@ || k == "priority"@
}

/// What the parts of a cookie come to.
pub ghost struct CookieParts {
    pub items: Seq<Seq<char>>,
    pub has_bduss: bool,
    pub has_bfess: bool,
    pub bduss: Option<Seq<char>>,
    pub stoken: Option<Seq<char>>,
}

/// Tells whether a part of a cookie is kept: a pair with a key and a value, no attribute.
pub open spec fn kept_part(part: Seq<char>) -> bool {
    let token = trim(part);
    is_pair(token) && part_key(token).len() > 0 && part_value(token).len() > 0 && !is_attribute(
        part_key(token),
    )
}

/// What the parts come to with one more: the last `BDUSS` counts, `BDUSS_BFESS` stands in for
/// it as long as there is none, and the first `STOKEN` of either kind counts.
pub open spec fn with_part(c: CookieParts, part: Seq<char>) -> CookieParts {
    let token = trim(part);
    let key = part_key(token);
    let value = part_value(token);
    let k = ascii_lower(key);
    if !kept_part(part) {
        c
    } else {
        CookieParts {
            items: c.items.push(key + "="@ + value),
            has_bduss: c.has_bduss || k == "bduss"@,
            has_bfess: c.has_bfess || k == "bduss_bfess"@,
            bduss: if k == "bduss"@ || (k == "bduss_bfess"@ && c.bduss is None) {
                Some(value)
            } else {
                c.bduss
            },
            stoken: if (k == "stoken"@ || k == "stoken_bfess"@) && c.stoken is None {
                Some(value)
            } else {
                c.stoken
            },
        }
    }
}

/// What a list of parts comes to.
pub open spec fn cookie_parts(parts: Seq<Seq<char>>) -> CookieParts
    decreases parts.len(),
{
    if parts.len() == 0 {
        CookieParts {
            items: Seq::empty(),
            has_bduss: false,
            has_bfess: false,
            bduss: None,
            stoken: None,
        }
    } else {
        with_part(cookie_parts(parts.drop_last()), parts.last())
    }
}

/// A pasted cookie without the name of its header.
pub open spec fn bare_cookie(input: Seq<char>) -> Seq<char> {
    let raw = trim(input);
    one_line(
        if starts_with(ascii_lower(raw), "cookie:"@) {
            trim(raw.skip(7))
        } else {
            raw
        },
    )
}

/// What a pasted cookie holds, or what is wrong with it.
pub open spec fn read_cookie(input: Seq<char>) -> Result<CookieParts, Seq<char>> {
    let c = cookie_parts(split_on(bare_cookie(input), ';'));
    if trim(input).len() == 0 {
        Err("Cookie 不能为空"@)
    } else if c.items.len() == 0 {
        Err("Cookie 无有效字段"@)
    } else if !c.has_bduss {
        if c.has_bfess {
            Err("Cookie 缺少 BDUSS，仅包含 BDUSS_BFESS"@)
        } else {
            Err("Cookie 缺少 BDUSS"@)
        }
    } else {
        Ok(c)
    }
}

/// What a pasted cookie holds, or what is wrong with it.
pub fn parse_baidu_cookie(input: &str) -> (r: Result<ParsedBaiduCookie, String>)
    ensures
        match r {
            Ok(parsed) => read_cookie(input@) matches Ok(c) && parsed.header@ == join(
                c.items,
                "; "@,
            ) && opt_text(parsed.bduss) == c.bduss && opt_text(parsed.stoken) == c.stoken,
            Err(message) => read_cookie(input@) matches Err(m) && message@ == m,
        },
{
    let chars = to_chars(input);
    let raw = trimmed(chars.as_slice());
    if raw.len() == 0 {
        return Err(copy_text("Cookie 不能为空"));
    }
    let lower = lowered(raw.as_slice());
    let cleaned = if begins(lower.as_slice(), "cookie:") {
        proof {
            reveal_strlit("cookie:");
        }
        let rest = piece(raw.as_slice(), 7, raw.len());
        assert(rest@ =~= raw@.skip(7));
        let bare = trimmed(rest.as_slice());
        to_one_line(bare.as_slice())
    } else {
        to_one_line(raw.as_slice())
    };
    assert(cleaned@ == bare_cookie(input@));
    let parts = split(cleaned.as_slice(), ';');
    let ghost all = views(parts@);
    let mut items: Vec<Vec<char>> = Vec::new();
    let mut has_bduss: bool = false;
    let mut has_bfess: bool = false;
    let mut bduss: Option<String> = None;
    let mut stoken: Option<String> = None;
    let mut i: usize = 0;
    assert(all.take(0) =~= Seq::<Seq<char>>::empty());
    assert(views(items@) =~= Seq::<Seq<char>>::empty());
    while i < parts.len()
        invariant
            i <= parts@.len(),
            all == views(parts@),
            cookie_parts(all.take(i as int)) == (CookieParts {
                items: views(items@),
                has_bduss,
                has_bfess,
                bduss: opt_text(bduss),
                stoken: opt_text(stoken),
            }),
        decreases parts.len() - i,
    {
        assert(all.take(i + 1).drop_last() =~= all.take(i as int));
        assert(all.take(i + 1).last() == parts@[i as int]@);
        let token = trimmed(parts[i].as_slice());
        if let Some((key, value)) = pair_of(token.as_slice()) {
            if key.len() > 0 && value.len() > 0 && !attribute_key(key.as_slice()) {
                let k = lowered(key.as_slice());
                if is_text(k.as_slice(), "bduss") {
                    has_bduss = true;
                    bduss = Some(to_text(value.as_slice()));
                }
                if is_text(k.as_slice(), "bduss_bfess") {
                    has_bfess = true;
                    if bduss.is_none() {
                        bduss = Some(to_text(value.as_slice()));
                    }
                }
                if (is_text(k.as_slice(), "stoken") || is_text(k.as_slice(), "stoken_bfess"))
                    && stoken.is_none() {
                    stoken = Some(to_text(value.as_slice()));
                }
                let ghost before = views(items@);
                let mut item = key;
                extend_text(&mut item, "=");
                extend(&mut item, value.as_slice());
                let ghost added = item@;
                items.push(item);
                assert(views(items@) =~= before.push(added));
                proof {
                    lemma_token_names_differ();
                }
            }
        }
        i += 1;
    }
    assert(all.take(i as int) =~= all);
    assert(views(items@).len() == items@.len());
    if items.len() == 0 {
        return Err(copy_text("Cookie 无有效字段"));
    }
    if !has_bduss {
        if has_bfess {
            return Err(copy_text("Cookie 缺少 BDUSS，仅包含 BDUSS_BFESS"));
        }
        return Err(copy_text("Cookie 缺少 BDUSS"));
    }
    let header = joined(&items, "; ");
    Ok(ParsedBaiduCookie { header: to_text(header.as_slice()), bduss, stoken })
}

proof fn lemma_token_names_differ()
    ensures
        "bduss"@ != "bduss_bfess"@,
{
    reveal_strlit("bduss");
    reveal_strlit("bduss_bfess");
    assert("bduss"@.len() != "bduss_bfess"@.len());
}

fn attribute_key(key: &[char]) -> (r: bool)
    ensures
        r == is_attribute(key@),
{
    let k = lowered(key);
    is_text(k.as_slice(), "path") || is_text(k.as_slice(), "domain") || is_text(
        k.as_slice(),
        "expires",
    ) || is_text(k.as_slice(), "max-age") || is_text(k.as_slice(), "secure") || is_text(
        k.as_slice(),
        "httponly",
    ) || is_text(k.as_slice(), "samesite") || is_text(k.as_slice(), "priority")
}

// ---------------------------------------------------------------------------
// Tokens

/// The token in a list of parts: the first part that is no pair, or the value of the first
/// pair that is labelled as the token.
pub open spec fn token_in(parts: Seq<Seq<char>>, label: Seq<char>) -> Option<Seq<char>>
    decreases parts.len(),
{
    if parts.len() == 0 {
        None
    } else {
        let token = trim(parts[0]);
        if token.len() > 0 && !is_pair(token) {
            Some(token)
        } else if token.len() > 0 && same_ignoring_case(part_key(token), label) && part_value(
            token,
        ).len() > 0 {
            Some(part_value(token))
        } else {
            token_in(parts.drop_first(), label)
        }
    }
}

/// A pasted token without what surrounds it, or what is wrong with it.
pub open spec fn read_token(input: Seq<char>, label: Seq<char>) -> Result<Seq<char>, Seq<char>> {
    let raw = trim(input);
    let cleaned = one_line(raw);
    let found = if cleaned.contains(';') || cleaned.contains('=') {
        token_in(split_on(cleaned, ';'), label)
    } else {
        None
    };
    if raw.len() == 0 {
        Err(label + " 不能为空"@)
    } else {
        match found {
            Some(token) => Ok(token),
            None => if starts_with(ascii_lower(cleaned), ascii_lower(label).push('=')) {
                let value = trim(cleaned.skip(label.len() as int + 1));
                if value.len() == 0 {
                    Err(label + " 不能为空"@)
                } else {
                    Ok(value)
                }
            } else {
                Ok(trim(cleaned))
            },
        }
    }
}

/// The views of a result of text.
pub open spec fn text_result(r: Result<String, String>) -> Result<Seq<char>, Seq<char>> {
    match r {
        Ok(v) => Ok(v@),
        Err(e) => Err(e@),
    }
}

fn has_char(s: &[char], c: char) -> (r: bool)
    ensures
        r == s@.contains(c),
{
    proof {
        lemma_index_of(s@, c);
    }
    match position(s, c) {
        Some(i) => {
            assert(s@[i as int] == c);
            true
        },
        None => {
            assert forall|k: int| 0 <= k < s@.len() implies s@[k] != c by {}
            false
        },
    }
}

/// A pasted token without what surrounds it: other parts, its label, white space.
pub fn normalize_baidu_token(input: &str, label: &str) -> (r: Result<String, String>)
    ensures
        text_result(r) == read_token(input@, label@),
{
    let chars = to_chars(input);
    let raw = trimmed(chars.as_slice());
    if raw.len() == 0 {
        return Err(concat2(label, " 不能为空"));
    }
    let cleaned = to_one_line(raw.as_slice());
    if has_char(cleaned.as_slice(), ';') || has_char(cleaned.as_slice(), '=') {
        let parts = split(cleaned.as_slice(), ';');
        let ghost all = views(parts@);
        let mut i: usize = 0;
        assert(all.skip(0) =~= all);
        while i < parts.len()
            invariant
                i <= parts@.len(),
                all == views(parts@),
                token_in(all, label@) == token_in(all.skip(i as int), label@),
                read_token(input@, label@) == (match token_in(all, label@) {
                    Some(token) => Ok::<Seq<char>, Seq<char>>(token),
                    None => read_token(input@, label@),
                }),
            decreases parts.len() - i,
        {
            assert(all.skip(i as int)[0] == parts@[i as int]@);
            assert(all.skip(i as int).drop_first() =~= all.skip(i + 1));
            let token = trimmed(parts[i].as_slice());
            if token.len() > 0 {
                match pair_of(token.as_slice()) {
                    Some((key, value)) => {
                        if is_text_ignoring_case(key.as_slice(), label) && value.len() > 0 {
                            return Ok(to_text(value.as_slice()));
                        }
                    },
                    None => {
                        return Ok(to_text(token.as_slice()));
                    },
                }
            }
            i += 1;
        }
        assert(all.skip(i as int).len() == 0);
    }
    let lower = lowered(cleaned.as_slice());
    let label_chars = to_chars(label);
    let mut prefix = lowered(label_chars.as_slice());
    prefix.push('=');
    if crate::text::found_at(lower.as_slice(), prefix.as_slice(), 0) {
        let rest = piece(cleaned.as_slice(), prefix.len(), cleaned.len());
        assert(rest@ =~= cleaned@.skip(label@.len() as int + 1));
        let value = trimmed(rest.as_slice());
        if value.len() == 0 {
            return Err(concat2(label, " 不能为空"));
        }
        return Ok(to_text(value.as_slice()));
    }
    let plain = trimmed(cleaned.as_slice());
    Ok(to_text(plain.as_slice()))
}

/// A pasted token that may be left out.
pub open spec fn read_token_optional(input: Seq<char>, label: Seq<char>) -> Result<
    Option<Seq<char>>,
    Seq<char>,
> {
    if trim(input).len() == 0 {
        Ok(None)
    } else {
        match read_token(trim(input), label) {
            Ok(token) => Ok(Some(token)),
            Err(message) => Err(message),
        }
    }
}

/// A pasted token that may be left out.
pub fn normalize_baidu_token_optional(input: &str, label: &str) -> (r: Result<
    Option<String>,
    String,
>)
    ensures
        match r {
            Ok(token) => read_token_optional(input@, label@) == Ok::<
                Option<Seq<char>>,
                Seq<char>,
            >(opt_text(token)),
            Err(message) => read_token_optional(input@, label@) == Err::<
                Option<Seq<char>>,
                Seq<char>,
            >(message@),
        },
{
    let raw = crate::text::trim_text(input);
    if raw.as_str().is_empty() {
        return Ok(None);
    }
    match normalize_baidu_token(raw.as_str(), label) {
        Ok(token) => Ok(Some(token)),
        Err(message) => Err(message),
    }
}

/// The tokens of an account as they are stored: read where they are there.
pub open spec fn stored_tokens(c: BaiduLoginCredential) -> Result<
    (Option<Seq<char>>, Option<Seq<char>>),
    Seq<char>,
> {
    let bduss = match c.bduss {
        Some(v) => match read_token(v@, "BDUSS"@) {
            Ok(t) => Ok::<Option<Seq<char>>, Seq<char>>(Some(t)),
            Err(m) => Err(m),
        },
        None => Ok(None),
    };
    let stoken = match c.stoken {
        Some(v) => read_token_optional(v@, "STOKEN"@),
        None => Ok(None),
    };
    match bduss {
        Ok(b) => match stoken {
            Ok(s) => Ok((b, s)),
            Err(m) => Err(m),
        },
        Err(m) => Err(m),
    }
}

/// The tokens of an account as they are stored.
pub fn credential_tokens(c: &BaiduLoginCredential) -> (r: Result<
    (Option<String>, Option<String>),
    String,
>)
    ensures
        match r {
            Ok(t) => stored_tokens(*c) == Ok::<
                (Option<Seq<char>>, Option<Seq<char>>),
                Seq<char>,
            >((opt_text(t.0), opt_text(t.1))),
            Err(m) => stored_tokens(*c) == Err::<
                (Option<Seq<char>>, Option<Seq<char>>),
                Seq<char>,
            >(m@),
        },
{
    let bduss: Option<String> = match &c.bduss {
        Some(v) => match normalize_baidu_token(v.as_str(), "BDUSS") {
            Ok(t) => Some(t),
            Err(m) => {
                return Err(m);
            },
        },
        None => None,
    };
    let stoken: Option<String> = match &c.stoken {
        Some(v) => match normalize_baidu_token_optional(v.as_str(), "STOKEN") {
            Ok(t) => t,
            Err(m) => {
                return Err(m);
            },
        },
        None => None,
    };
    Ok((bduss, stoken))
}

/// The cookie header that two tokens make.
pub open spec fn token_header(bduss: Seq<char>, stoken: Option<Seq<char>>) -> Seq<char> {
    match stoken {
        Some(s) => "BDUSS="@ + bduss + "; STOKEN="@ + s,
        None => "BDUSS="@ + bduss,
    }
}

fn make_token_header(bduss: &str, stoken: &Option<String>) -> (r: String)
    ensures
        r@ == token_header(bduss@, opt_text(*stoken)),
{
    let mut out = to_chars("BDUSS=");
    extend_text(&mut out, bduss);
    if let Some(s) = stoken {
        extend_text(&mut out, "; STOKEN=");
        extend_text(&mut out, s.as_str());
    }
    to_text(out.as_slice())
}

/// The tokens in the parts of a kept cookie header: the first `BDUSS` of either kind, and the
/// last `STOKEN`.
pub open spec fn header_tokens(parts: Seq<Seq<char>>) -> Result<
    (Option<Seq<char>>, Option<Seq<char>>),
    Seq<char>,
>
    decreases parts.len(),
{
    if parts.len() == 0 {
        Ok((None, None))
    } else {
        match header_tokens(parts.drop_last()) {
            Ok((bduss, stoken)) => {
                let token = trim(parts.last());
                let key = part_key(token);
                let value = part_value(token);
                if !is_pair(token) {
                    Ok((bduss, stoken))
                } else if same_ignoring_case(key, "BDUSS"@) || same_ignoring_case(
                    key,
                    "BDUSS_BFESS"@,
                ) {
                    if bduss is None && value.len() > 0 {
                        match read_token(value, "BDUSS"@) {
                            Ok(t) => Ok((Some(t), stoken)),
                            Err(m) => Err(m),
                        }
                    } else {
                        Ok((bduss, stoken))
                    }
                } else if same_ignoring_case(key, "STOKEN"@) && value.len() > 0 {
                    match read_token_optional(value, "STOKEN"@) {
                        Ok(t) => Ok((bduss, t)),
                        Err(m) => Err(m),
                    }
                } else {
                    Ok((bduss, stoken))
                }
            },
            Err(m) => Err(m),
        }
    }
}

fn tokens_of_header(header: &str) -> (r: Result<(Option<String>, Option<String>), String>)
    ensures
        match r {
            Ok(t) => header_tokens(split_on(header@, ';')) == Ok::<
                (Option<Seq<char>>, Option<Seq<char>>),
                Seq<char>,
            >((opt_text(t.0), opt_text(t.1))),
            Err(m) => header_tokens(split_on(header@, ';')) == Err::<
                (Option<Seq<char>>, Option<Seq<char>>),
                Seq<char>,
            >(m@),
        },
{
    let chars = to_chars(header);
    let parts = split(chars.as_slice(), ';');
    let ghost all = views(parts@);
    let mut bduss: Option<String> = None;
    let mut stoken: Option<String> = None;
    let mut i: usize = 0;
    assert(all.take(0) =~= Seq::<Seq<char>>::empty());
    while i < parts.len()
        invariant
            i <= parts@.len(),
            all == views(parts@),
            all == split_on(header@, ';'),
            header_tokens(all.take(i as int)) == Ok::<
                (Option<Seq<char>>, Option<Seq<char>>),
                Seq<char>,
            >((opt_text(bduss), opt_text(stoken))),
        decreases parts.len() - i,
    {
        assert(all.take(i + 1).drop_last() =~= all.take(i as int));
        assert(all.take(i + 1).last() == parts@[i as int]@);
        let token = trimmed(parts[i].as_slice());
        if let Some((key, value)) = pair_of(token.as_slice()) {
            if is_text_ignoring_case(key.as_slice(), "BDUSS") || is_text_ignoring_case(
                key.as_slice(),
                "BDUSS_BFESS",
            ) {
                if bduss.is_none() && value.len() > 0 {
                    let text = to_text(value.as_slice());
                    match normalize_baidu_token(text.as_str(), "BDUSS") {
                        Ok(t) => {
                            bduss = Some(t);
                        },
                        Err(m) => {
                            proof {
                                lemma_header_error(all, i + 1, m@);
                            }
                            return Err(m);
                        },
                    }
                }
            } else if is_text_ignoring_case(key.as_slice(), "STOKEN") && value.len() > 0 {
                let text = to_text(value.as_slice());
                match normalize_baidu_token_optional(text.as_str(), "STOKEN") {
                    Ok(t) => {
                        stoken = t;
                    },
                    Err(m) => {
                        proof {
                            lemma_header_error(all, i + 1, m@);
                        }
                        return Err(m);
                    },
                }
            }
        }
        i += 1;
    }
    assert(all.take(i as int) =~= all);
    Ok((bduss, stoken))
}

proof fn lemma_header_error(parts: Seq<Seq<char>>, k: int, m: Seq<char>)
    requires
        0 <= k <= parts.len(),
        header_tokens(parts.take(k)) == Err::<
            (Option<Seq<char>>, Option<Seq<char>>),
            Seq<char>,
        >(m),
    ensures
        header_tokens(parts) == Err::<(Option<Seq<char>>, Option<Seq<char>>), Seq<char>>(m),
    decreases parts.len() - k,
{
    if k < parts.len() {
        assert(parts.take(k + 1).drop_last() =~= parts.take(k));
        lemma_header_error(parts, k + 1, m);
    } else {
        assert(parts.take(k) =~= parts);
    }
}

/// The cookie header of a request: made of the stored tokens, else of those in the stored
/// cookie, else the cookie itself.
pub open spec fn api_header(c: BaiduLoginCredential) -> Result<Seq<char>, Seq<char>> {
    match stored_tokens(c) {
        Err(m) => Err(m),
        Ok((Some(bduss), stoken)) => Ok(token_header(bduss, stoken)),
        Ok((None, _)) => {
            let cookie = match c.cookie {
                Some(text) => text@,
                None => Seq::empty(),
            };
            match read_cookie(cookie) {
                Err(m) => Err(m),
                Ok(parts) => {
                    let header = join(parts.items, "; "@);
                    match header_tokens(split_on(header, ';')) {
                        Err(m) => Err(m),
                        Ok((Some(bduss), stoken)) => Ok(token_header(bduss, stoken)),
                        Ok((None, _)) => Ok(header),
                    }
                },
            }
        },
    }
}

/// The cookie header of a request.
pub fn build_baidu_api_cookie_header(credential: &BaiduLoginCredential) -> (r: Result<
    String,
    String,
>)
    ensures
        text_result(r) == api_header(*credential),
{
    let (bduss, stoken): (Option<String>, Option<String>) = match credential_tokens(credential) {
        Ok(t) => t,
        Err(m) => {
            return Err(m);
        },
    };
    if let Some(b) = &bduss {
        return Ok(make_token_header(b.as_str(), &stoken));
    }
    let parsed = match &credential.cookie {
        Some(text) => parse_baidu_cookie(text.as_str()),
        None => {
            let nothing = String::new();
            assert(nothing@ =~= Seq::<char>::empty());
            parse_baidu_cookie(nothing.as_str())
        },
    };
    let parsed = match parsed {
        Ok(p) => p,
        Err(m) => {
            return Err(m);
        },
    };
    match tokens_of_header(parsed.header.as_str()) {
        Ok((Some(b), s)) => Ok(make_token_header(b.as_str(), &s)),
        Ok((None, _)) => Ok(parsed.header),
        Err(m) => Err(m),
    }
}

// ---------------------------------------------------------------------------
// What becomes of what is pasted

proof fn lemma_key_and_value(key: Seq<char>, value: Seq<char>)
    requires
        forall|k: int| 0 <= k < key.len() ==> key[k] != '=',
    ensures
        is_pair(key + "="@ + value),
        part_key(key + "="@ + value) == trim(key),
        part_value(key + "="@ + value) == trim(value),
{
    reveal_strlit("=");
    let token = key + "="@ + value;
    lemma_index_of(token, '=');
    assert(token[key.len() as int] == '=');
    if index_of(token, '=') < key.len() {
        assert(token[index_of(token, '=')] == key[index_of(token, '=')]);
    }
    assert(index_of(token, '=') == key.len());
    assert(token.take(key.len() as int) =~= key);
    assert(token.skip(key.len() as int + 1) =~= value);
}

/// Every field of a cookie is kept, in its order, but for the attributes and what has no value.
pub proof fn law_cookie_fields_kept(a: Seq<Seq<char>>, b: Seq<Seq<char>>)
    ensures
        cookie_parts(a + b).items == cookie_parts(a).items + cookie_parts(b).items,
    decreases b.len(),
{
    if b.len() == 0 {
        assert(a + b =~= a);
        assert(cookie_parts(b).items =~= Seq::<Seq<char>>::empty());
        assert(cookie_parts(a).items + cookie_parts(b).items =~= cookie_parts(a).items);
    } else {
        assert((a + b).drop_last() =~= a + b.drop_last());
        assert((a + b).last() == b.last());
        law_cookie_fields_kept(a, b.drop_last());
        assert(cookie_parts(a + b).items =~= cookie_parts(a).items + cookie_parts(b).items);
    }
}

/// A field of a cookie stays as it is, without the white space around its name and its value;
/// attributes are left out, in whatever case.
pub proof fn law_cookie_field(key: Seq<char>, value: Seq<char>)
    requires
        key.len() > 0,
        value.len() > 0,
        forall|k: int| 0 <= k < key.len() ==> key[k] != '=',
        trim(key) == key,
        trim(value) == value,
        trim(key + "="@ + value) == key + "="@ + value,
    ensures
        ascii_lower(key) != "path"@ && ascii_lower(key) != "domain"@ && ascii_lower(key)
            != "expires"@ && ascii_lower(key) != "max-age"@ && ascii_lower(key) != "secure"@
            && ascii_lower(key) != "httponly"@ && ascii_lower(key) != "samesite"@ && ascii_lower(
            key,
        ) != "priority"@ ==> cookie_parts(seq![key + "="@ + value]).items == seq![
            key + "="@ + value,
        ],
        ascii_lower(key) == "path"@ || ascii_lower(key) == "domain"@ || ascii_lower(key)
            == "expires"@ || ascii_lower(key) == "max-age"@ || ascii_lower(key) == "secure"@
            || ascii_lower(key) == "httponly"@ || ascii_lower(key) == "samesite"@ || ascii_lower(
            key,
        ) == "priority"@ ==> cookie_parts(seq![key + "="@ + value]).items.len() == 0,
{
    let parts = seq![key + "="@ + value];
    lemma_key_and_value(key, value);
    reveal_with_fuel(cookie_parts, 2);
    assert(parts.drop_last() =~= Seq::<Seq<char>>::empty());
    assert(parts.last() == key + "="@ + value);
    assert(Seq::<Seq<char>>::empty().push(key + "="@ + value) =~= parts);
}

/// Tells whether a part is a kept field of a name, the case aside.
pub open spec fn named_part(part: Seq<char>, name: Seq<char>) -> bool {
    kept_part(part) && ascii_lower(part_key(trim(part))) == name
}

/// The login token of a cookie is the value of the last field of its name, and the other token that
/// of the first of its two names; a cookie counts as one only where it has the first.
pub proof fn law_tokens_of_cookie(parts: Seq<Seq<char>>, i: int)
    ensures
        0 <= i < parts.len() && named_part(parts[i], "bduss"@) ==> cookie_parts(parts).has_bduss,
        cookie_parts(parts).has_bduss ==> exists|k: int|
            0 <= k < parts.len() && named_part(#[trigger] parts[k], "bduss"@),
        0 <= i < parts.len() && named_part(parts[i], "bduss"@) && (forall|k: int|
            i < k < parts.len() ==> !named_part(#[trigger] parts[k], "bduss"@)) ==> cookie_parts(
            parts,
        ).bduss == Some(part_value(trim(parts[i]))),
        0 <= i < parts.len() && (named_part(parts[i], "stoken"@) || named_part(
            parts[i],
            "stoken_bfess"@,
        )) && (forall|k: int|
            0 <= k < i ==> !named_part(#[trigger] parts[k], "stoken"@) && !named_part(
                parts[k],
                "stoken_bfess"@,
            )) ==> cookie_parts(parts).stoken == Some(part_value(trim(parts[i]))),
        (forall|k: int|
            0 <= k < parts.len() ==> !named_part(#[trigger] parts[k], "stoken"@) && !named_part(
                parts[k],
                "stoken_bfess"@,
            )) ==> cookie_parts(parts).stoken is None,
    decreases parts.len(),
{
    if parts.len() > 0 {
        let rest = parts.drop_last();
        let n = parts.len() - 1;
        assert(parts[n] == parts.last());
        lemma_names_differ();
        law_tokens_of_cookie(rest, i);
        assert forall|k: int| 0 <= k < rest.len() implies #[trigger] rest[k] == parts[k] by {}
        if 0 <= i < rest.len() {
            assert(rest[i] == parts[i]);
        }
        if cookie_parts(rest).has_bduss {
            let k = choose|k: int| 0 <= k < rest.len() && named_part(#[trigger] rest[k], "bduss"@);
            assert(named_part(parts[k], "bduss"@));
        }
        if i == n && named_part(parts[n], "stoken"@) || i == n && named_part(
            parts[n],
            "stoken_bfess"@,
        ) {
            if forall|k: int|
                0 <= k < i ==> !named_part(#[trigger] parts[k], "stoken"@) && !named_part(
                    parts[k],
                    "stoken_bfess"@,
                ) {
                assert forall|k: int| 0 <= k < rest.len() implies !named_part(
                    #[trigger] rest[k],
                    "stoken"@,
                ) && !named_part(rest[k], "stoken_bfess"@) by {
                    assert(rest[k] == parts[k]);
                }
            }
        }
        if forall|k: int|
            0 <= k < parts.len() ==> !named_part(#[trigger] parts[k], "stoken"@) && !named_part(
                parts[k],
                "stoken_bfess"@,
            ) {
            assert forall|k: int| 0 <= k < rest.len() implies !named_part(
                #[trigger] rest[k],
                "stoken"@,
            ) && !named_part(rest[k], "stoken_bfess"@) by {
                assert(rest[k] == parts[k]);
            }
            assert(!named_part(parts[n], "stoken"@));
        }
    }
}

proof fn lemma_names_differ()
    ensures
        "bduss"@ != "bduss_bfess"@,
        "bduss"@ != "stoken"@,
        "bduss"@ != "stoken_bfess"@,
        "bduss_bfess"@ != "stoken"@,
        "bduss_bfess"@ != "stoken_bfess"@,
        "stoken"@ != "stoken_bfess"@,
{
    reveal_strlit("bduss");
    reveal_strlit("bduss_bfess");
    reveal_strlit("stoken");
    reveal_strlit("stoken_bfess");
    assert("bduss"@.len() == 5);
    assert("bduss_bfess"@.len() == 11);
    assert("stoken"@.len() == 6);
    assert("stoken_bfess"@.len() == 12);
}

/// A cookie is taken where it is given, holds a field and holds the login token; what is wrong with
/// any other is told.
pub proof fn law_cookie_needs_its_token(input: Seq<char>)
    ensures
        trim(input).len() == 0 ==> read_cookie(input) == Err::<CookieParts, Seq<char>>(
            "Cookie 不能为空"@,
        ),
        ({
            let c = cookie_parts(split_on(bare_cookie(input), ';'));
            &&& read_cookie(input) is Ok <==> trim(input).len() > 0 && c.items.len() > 0
                && c.has_bduss
            &&& read_cookie(input) is Ok ==> read_cookie(input) == Ok::<CookieParts, Seq<char>>(c)
            &&& trim(input).len() > 0 && c.items.len() > 0 && !c.has_bduss && c.has_bfess
                ==> read_cookie(input) == Err::<CookieParts, Seq<char>>(
                "Cookie 缺少 BDUSS，仅包含 BDUSS_BFESS"@,
            )
            &&& trim(input).len() > 0 && c.items.len() > 0 && !c.has_bduss && !c.has_bfess
                ==> read_cookie(input) == Err::<CookieParts, Seq<char>>("Cookie 缺少 BDUSS"@)
        }),
{
}

/// The name of the header may stand before a cookie, in whatever case: it is no part of it.
pub proof fn law_header_name_dropped(name: Seq<char>, cookie: Seq<char>)
    requires
        ascii_lower(name) == "cookie:"@,
        trim(name + cookie) == name + cookie,
        trim(cookie) == cookie,
        !starts_with(ascii_lower(cookie), "cookie:"@),
    ensures
        bare_cookie(name + cookie) == bare_cookie(cookie),
{
    reveal_strlit("cookie:");
    assert("cookie:"@.len() == 7);
    let whole = name + cookie;
    assert(ascii_lower(name).len() == name.len());
    assert(name.len() == 7);
    assert(ascii_lower(whole).subrange(0, 7) =~= ascii_lower(name));
    assert(starts_with(ascii_lower(whole), "cookie:"@));
    assert(whole.skip(7) =~= cookie);
}

/// A line end counts as the end of a field.
pub proof fn law_line_end_ends_field(a: Seq<char>, b: Seq<char>)
    ensures
        one_line(a + seq!['\n'] + b) == one_line(a) + seq![';'] + one_line(b),
        one_line(a + seq!['\r'] + b) == one_line(a) + seq![';'] + one_line(b),
{
    assert(one_line(a + seq!['\n'] + b) =~= one_line(a) + seq![';'] + one_line(b));
    assert(one_line(a + seq!['\r'] + b) =~= one_line(a) + seq![';'] + one_line(b));
}

/// A token may be pasted alone.
pub proof fn law_bare_token_kept(token: Seq<char>, label: Seq<char>)
    requires
        token.len() > 0,
        trim(token) == token,
        forall|k: int|
            0 <= k < token.len() ==> token[k] != ';' && token[k] != '=' && token[k] != '\n'
                && token[k] != '\r',
    ensures
        read_token(token, label) == Ok::<Seq<char>, Seq<char>>(token),
        read_token_optional(token, label) == Ok::<Option<Seq<char>>, Seq<char>>(Some(token)),
        read_token_optional(Seq::empty(), label) == Ok::<Option<Seq<char>>, Seq<char>>(None),
        read_token(Seq::empty(), label) == Err::<Seq<char>, Seq<char>>(label + " 不能为空"@),
{
    assert(one_line(token) =~= token);
    assert(!token.contains(';') && !token.contains('='));
    let start = ascii_lower(label).push('=');
    if starts_with(ascii_lower(token), start) {
        let n = label.len() as int;
        assert(ascii_lower(token).subrange(0, start.len() as int)[n] == start[n]);
        assert(ascii_lower(token)[n] == '=');
        assert(token[n] != '=');
    }
}

/// A token is found among the fields of what is pasted by its name, the case aside, whatever fields
/// stand before it.
pub proof fn law_token_found_by_name(parts: Seq<Seq<char>>, label: Seq<char>, i: int)
    requires
        0 <= i < parts.len(),
        is_pair(trim(parts[i])),
        same_ignoring_case(part_key(trim(parts[i])), label),
        part_value(trim(parts[i])).len() > 0,
        forall|k: int|
            0 <= k < i ==> is_pair(trim(#[trigger] parts[k])) && !same_ignoring_case(
                part_key(trim(parts[k])),
                label,
            ),
    ensures
        token_in(parts, label) == Some(part_value(trim(parts[i]))),
    decreases parts.len(),
{
    lemma_index_of(trim(parts[0]), '=');
    if i > 0 {
        assert(is_pair(trim(parts[0])));
        let rest = parts.drop_first();
        assert forall|k: int| 0 <= k < i - 1 implies is_pair(trim(#[trigger] rest[k]))
            && !same_ignoring_case(part_key(trim(rest[k])), label) by {
            assert(rest[k] == parts[k + 1]);
        }
        assert(rest[i - 1] == parts[i]);
        law_token_found_by_name(rest, label, i - 1);
    }
}

/// A token that is pasted with its name before it is the token alone.
pub proof fn law_named_token_kept(label: Seq<char>, token: Seq<char>)
    requires
        label.len() > 0,
        token.len() > 0,
        trim(label) == label,
        trim(token) == token,
        trim(label + "="@ + token) == label + "="@ + token,
        forall|k: int|
            0 <= k < token.len() ==> token[k] != ';' && token[k] != '\n' && token[k] != '\r',
        forall|k: int|
            0 <= k < label.len() ==> label[k] != ';' && label[k] != '=' && label[k] != '\n'
                && label[k] != '\r',
    ensures
        read_token(label + "="@ + token, label) == Ok::<Seq<char>, Seq<char>>(token),
{
    reveal_strlit("=");
    let whole = label + "="@ + token;
    lemma_key_and_value(label, token);
    assert forall|k: int| 0 <= k < whole.len() implies whole[k] != ';' && whole[k] != '\n'
        && whole[k] != '\r' by {
        if k < label.len() {
            assert(whole[k] == label[k]);
        } else if k > label.len() {
            assert(whole[k] == token[k - label.len() - 1]);
        }
    }
    assert(one_line(whole) =~= whole);
    assert(whole[label.len() as int] == '=');
    lemma_split_whole(whole, ';');
    let parts = split_on(whole, ';');
    assert(parts[0] == whole);
    law_token_found_by_name(parts, label, 0);
}

/// Tokens that are stored go before the cookie, and the header names the two.
pub proof fn law_stored_tokens_go_first(c: BaiduLoginCredential)
    requires
        c.bduss is Some,
        read_token(c.bduss->0@, "BDUSS"@) is Ok,
    ensures
        c.stoken is None ==> api_header(c) == Ok::<Seq<char>, Seq<char>>(
            "BDUSS="@ + read_token(c.bduss->0@, "BDUSS"@)->Ok_0,
        ),
        c.stoken is Some && read_token_optional(c.stoken->0@, "STOKEN"@) is Ok
            && read_token_optional(c.stoken->0@, "STOKEN"@)->Ok_0 is Some ==> api_header(c) == Ok::<
            Seq<char>,
            Seq<char>,
        >(
            "BDUSS="@ + read_token(c.bduss->0@, "BDUSS"@)->Ok_0 + "; STOKEN="@
                + read_token_optional(c.stoken->0@, "STOKEN"@)->Ok_0->0,
        ),
        c.stoken is Some && read_token_optional(c.stoken->0@, "STOKEN"@) is Err ==> api_header(c)
            is Err,
{
}

/// Without a stored token the header is made of the tokens of the cookie; where there is none
/// usable, the cookie is told to be wrong.
pub proof fn law_cookie_gives_tokens(c: BaiduLoginCredential, cookie: CookieParts)
    requires
        c.bduss is None,
        c.stoken is None,
        c.cookie is Some,
        read_cookie(c.cookie->0@) == Ok::<CookieParts, Seq<char>>(cookie),
    ensures
        ({
            let t = header_tokens(split_on(join(cookie.items, "; "@), ';'));
            &&& t matches Ok((Some(b), Some(s))) ==> api_header(c) == Ok::<Seq<char>, Seq<char>>(
                "BDUSS="@ + b + "; STOKEN="@ + s,
            )
            &&& t matches Ok((Some(b), None)) ==> api_header(c) == Ok::<Seq<char>, Seq<char>>(
                "BDUSS="@ + b,
            )
            &&& t matches Ok((None, _)) ==> api_header(c) == Ok::<Seq<char>, Seq<char>>(
                join(cookie.items, "; "@),
            )
        }),
{
}

/// Tells whether a field of a header has a name, the case aside, and a value.
pub open spec fn header_field(part: Seq<char>, name: Seq<char>) -> bool {
    is_pair(trim(part)) && same_ignoring_case(part_key(trim(part)), name) && part_value(
        trim(part),
    ).len() > 0
}

/// The login token of a header is that of its first field of one of the two names.
pub proof fn law_header_token_is_first(parts: Seq<Seq<char>>, i: int)
    requires
        0 <= i < parts.len(),
        header_field(parts[i], "BDUSS"@) || header_field(parts[i], "BDUSS_BFESS"@),
        forall|k: int|
            0 <= k < i ==> !header_field(#[trigger] parts[k], "BDUSS"@) && !header_field(
                parts[k],
                "BDUSS_BFESS"@,
            ),
        header_tokens(parts) is Ok,
    ensures
        ({
            let found = header_tokens(parts)->Ok_0;
            let token = read_token(part_value(trim(parts[i])), "BDUSS"@);
            token is Ok && found.0 == Some(token->Ok_0)
        }),
    decreases parts.len(),
{
    let rest = parts.drop_last();
    let n = parts.len() - 1;
    assert(parts[n] == parts.last());
    assert(header_tokens(rest) is Ok);
    if i < n {
        assert(rest[i] == parts[i]);
        assert forall|k: int| 0 <= k < i implies !header_field(#[trigger] rest[k], "BDUSS"@)
            && !header_field(rest[k], "BDUSS_BFESS"@) by {
            assert(rest[k] == parts[k]);
        }
        law_header_token_is_first(rest, i);
    } else {
        assert forall|k: int| 0 <= k < rest.len() implies !header_field(
            #[trigger] rest[k],
            "BDUSS"@,
        ) && !header_field(rest[k], "BDUSS_BFESS"@) by {
            assert(rest[k] == parts[k]);
        }
        lemma_no_header_token(rest);
    }
}

proof fn lemma_no_header_token(parts: Seq<Seq<char>>)
    requires
        forall|k: int|
            0 <= k < parts.len() ==> !header_field(#[trigger] parts[k], "BDUSS"@) && !header_field(
                parts[k],
                "BDUSS_BFESS"@,
            ),
        header_tokens(parts) is Ok,
    ensures
        ({
            let found = header_tokens(parts)->Ok_0;
            found.0 is None
        }),
    decreases parts.len(),
{
    if parts.len() > 0 {
        let rest = parts.drop_last();
        let n = parts.len() - 1;
        assert(parts[n] == parts.last());
        assert(!header_field(parts[n], "BDUSS"@) && !header_field(parts[n], "BDUSS_BFESS"@));
        assert forall|k: int| 0 <= k < rest.len() implies !header_field(
            #[trigger] rest[k],
            "BDUSS"@,
        ) && !header_field(rest[k], "BDUSS_BFESS"@) by {
            assert(rest[k] == parts[k]);
        }
        lemma_no_header_token(rest);
    }
}

} // verus!
