//! Stream addresses: which ones a room offers, in which order they are tried, and when they
//! expire.

use crate::json::{
    field, items_at, list_view, loose_integer, loose_integer_at, opt_view, text_at, text_or_empty,
    Json, JsonView,
};
use crate::outside::{pair_views, parse_url, url_parts};
use crate::text::{
    all_digits, begins, contains, copy_text, decimal, extend, extend_text, i64_text, i64_value,
    is_digit, parse_i64, parse_u64, split, split_on, starts_with, text_eq, text_has, texts,
    to_chars, to_text, trim_end_char, trimmed_end_char, u64_value, views,
};
use vstd::prelude::*;

verus! {

/// An address is fetched anew so many seconds before it expires.
pub const STREAM_URL_REFRESH_LEAD_SECS: u64 = 30;

/// The quality that is asked for where none is configured.
pub const DEFAULT_QUALITY: i64 = 10000;

// ---------------------------------------------------------------------------
// Quality

/// The digits of a sequence, in order.
pub open spec fn only_digits(s: Seq<char>) -> Seq<char>
    decreases s.len(),
{
    if s.len() == 0 {
        Seq::empty()
    } else if is_digit(s.last()) {
        only_digits(s.drop_last()).push(s.last())
    } else {
        only_digits(s.drop_last())
    }
}

/// The number that the digits of a sequence spell, where it is positive and fits.
pub open spec fn quality_number(s: Seq<char>) -> Option<i64> {
    match i64_value(only_digits(s)) {
        Some(n) => if n > 0 {
            Some(n)
        } else {
            None
        },
        None => None,
    }
}

/// The first usable number of a list, or the default.
pub open spec fn first_quality(parts: Seq<Seq<char>>) -> i64
    decreases parts.len(),
{
    if parts.len() == 0 {
        DEFAULT_QUALITY
    } else {
        match quality_number(parts[0]) {
            Some(n) => n,
            None => first_quality(parts.drop_first()),
        }
    }
}

fn digits_only(s: &[char]) -> (r: Vec<char>)
    ensures
        r@ == only_digits(s@),
{
    let mut out: Vec<char> = Vec::new();
    let mut i: usize = 0;
    assert(s@.take(0) =~= Seq::<char>::empty());
    while i < s.len()
        invariant
            i <= s@.len(),
            out@ == only_digits(s@.take(i as int)),
        decreases s.len() - i,
    {
        let c = s[i];
        assert(s@.take(i + 1).drop_last() =~= s@.take(i as int));
        if '0' <= c && c <= '9' {
            out.push(c);
        }
        i += 1;
    }
    assert(s@.take(i as int) =~= s@);
    out
}

/// The quality that a setting asks for: the first part, between commas, whose digits spell a
/// positive number.
pub fn parse_quality(value: &str) -> (r: i64)
    ensures
        r == first_quality(split_on(value@, ',')),
{
    let chars = to_chars(value);
    let parts = split(chars.as_slice(), ',');
    let ghost all = views(parts@);
    let mut i: usize = 0;
    assert(all.skip(0) =~= all);
    while i < parts.len()
        invariant
            i <= parts@.len(),
            all == views(parts@),
            all == split_on(value@, ','),
            first_quality(all) == first_quality(all.skip(i as int)),
        decreases parts.len() - i,
    {
        let digits = digits_only(parts[i].as_slice());
        assert(all.skip(i as int)[0] == parts@[i as int]@);
        assert(all.skip(i as int).drop_first() =~= all.skip(i + 1));
        if let Some(n) = parse_i64(digits.as_slice()) {
            if n > 0 {
                return n;
            }
        }
        i += 1;
    }
    assert(all.skip(i as int).len() == 0);
    DEFAULT_QUALITY
}

/// The quality that is asked for is positive.
pub proof fn law_quality_positive(parts: Seq<Seq<char>>)
    ensures
        first_quality(parts) > 0,
    decreases parts.len(),
{
    if parts.len() > 0 {
        law_quality_positive(parts.drop_first());
    }
}

// ---------------------------------------------------------------------------
// Selection

/// Tells whether an item carries a text under a key.
pub open spec fn named(item: JsonView, key: Seq<char>, value: Seq<char>) -> bool {
    text_at(item, key) == Some(value)
}

/// The first item that carries a text under a key.
pub open spec fn first_named(list: Seq<JsonView>, key: Seq<char>, value: Seq<char>) -> Option<
    JsonView,
>
    decreases list.len(),
{
    if list.len() == 0 {
        None
    } else if named(list[0], key, value) {
        Some(list[0])
    } else {
        first_named(list.drop_first(), key, value)
    }
}

fn find_named<'a>(list: &'a Vec<Json>, key: &str, value: &str) -> (r: Option<&'a Json>)
    ensures
        opt_view(r) == first_named(list_view(list@), key@, value@),
{
    let ghost all = list_view(list@);
    let mut i: usize = 0;
    assert(all.skip(0) =~= all);
    while i < list.len()
        invariant
            i <= list@.len(),
            all == list_view(list@),
            first_named(all, key@, value@) == first_named(all.skip(i as int), key@, value@),
        decreases list.len() - i,
    {
        assert(all.skip(i as int)[0] == list@[i as int]@);
        assert(all.skip(i as int).drop_first() =~= all.skip(i + 1));
        if let Some(text) = list[i].get_text(key) {
            if text_eq(text.as_str(), value) {
                return Some(&list[i]);
            }
        }
        i += 1;
    }
    assert(all.skip(i as int).len() == 0);
    None
}

/// Tells whether an item of a list spells a number.
pub open spec fn spells(list: Seq<JsonView>, n: i64) -> bool {
    exists|i: int| 0 <= i < list.len() && #[trigger] loose_integer(list[i]) == Some(n)
}

/// Tells whether a codec entry offers a quality: it plays it or accepts it. No quality in
/// particular is offered by every entry.
pub open spec fn offers(codec: JsonView, quality: i64) -> bool {
    ||| quality <= 0
    ||| loose_integer_at(codec, "current_qn"@) == Some(quality)
    ||| (items_at(codec, "accept_qn"@) matches Some(list) && spells(list, quality))
}

/// Tells whether a codec entry offers a quality.
pub fn codec_matches_qn(codec: &Json, target_qn: i64) -> (r: bool)
    ensures
        r == offers(codec@, target_qn),
{
    if target_qn <= 0 {
        return true;
    }
    if let Some(current) = codec.get_loose_i64("current_qn") {
        if current == target_qn {
            return true;
        }
    }
    match codec.get_array("accept_qn") {
        Some(list) => {
            let mut i: usize = 0;
            while i < list.len()
                invariant
                    i <= list@.len(),
                    items_at(codec@, "accept_qn"@) == Some(list_view(list@)),
                    forall|k: int|
                        0 <= k < i ==> #[trigger] loose_integer(list_view(list@)[k]) != Some(
                            target_qn,
                        ),
                decreases list.len() - i,
            {
                if let Some(n) = list[i].to_i64() {
                    if n == target_qn {
                        assert(loose_integer(list_view(list@)[i as int]) == Some(target_qn));
                        return true;
                    }
                }
                assert(loose_integer(list_view(list@)[i as int]) != Some(target_qn));
                i += 1;
            }
            false
        },
        None => false,
    }
}

/// The address made of a host, a base and the rest. A base that is an address itself needs no
/// host.
pub open spec fn stream_address(host: Seq<char>, base: Seq<char>, extra: Seq<char>) -> Option<
    Seq<char>,
> {
    if base.len() == 0 {
        None
    } else if starts_with(base, "http://"@) || starts_with(base, "https://"@) {
        Some(base + extra)
    } else if host.len() == 0 {
        None
    } else {
        Some(
            trim_end_char(host, '/') + (if base[0] == '/' {
                base
            } else {
                seq!['/'] + base
            }) + extra,
        )
    }
}

/// The address made of a host, a base and the rest.
pub fn join_stream_url(host: &str, base_url: &str, extra: &str) -> (r: Option<String>)
    ensures
        match r {
            Some(url) => stream_address(host@, base_url@, extra@) == Some(url@),
            None => stream_address(host@, base_url@, extra@) is None,
        },
{
    let base = to_chars(base_url);
    if base.len() == 0 {
        return None;
    }
    if begins(base.as_slice(), "http://") || begins(base.as_slice(), "https://") {
        return Some(crate::text::concat2(base_url, extra));
    }
    let host_chars = to_chars(host);
    if host_chars.len() == 0 {
        return None;
    }
    let mut out = trimmed_end_char(host_chars.as_slice(), '/');
    let ghost head = out@;
    if base[0] != '/' {
        out.push('/');
        assert(out@ =~= head + seq!['/']);
    }
    extend(&mut out, base.as_slice());
    extend_text(&mut out, extra);
    assert(out@ =~= stream_address(host@, base_url@, extra@)->0);
    Some(to_text(out.as_slice()))
}

/// A list with one more text, unless it holds it already.
pub open spec fn with_unique(list: Seq<Seq<char>>, url: Seq<char>) -> Seq<Seq<char>> {
    if list.contains(url) {
        list
    } else {
        list.push(url)
    }
}

/// Adds a text to a list, unless it holds it already.
pub fn push_unique_url(target: &mut Vec<String>, url: String)
    ensures
        texts(final(target)@) == with_unique(texts(old(target)@), url@),
{
    let ghost all = texts(target@);
    let mut i: usize = 0;
    while i < target.len()
        invariant
            i <= target@.len(),
            target@ == old(target)@,
            all == texts(target@),
            forall|k: int| 0 <= k < i ==> all[k] != url@,
        decreases target.len() - i,
    {
        if text_eq(target[i].as_str(), url.as_str()) {
            assert(all[i as int] == url@);
            return ;
        }
        i += 1;
    }
    assert(!all.contains(url@));
    target.push(url);
    assert(texts(target@) =~= all.push(url@));
}

/// Two lists of addresses: those of ordinary hosts, and those of hosts that are used last.
pub ghost struct UrlLists {
    pub preferred: Seq<Seq<char>>,
    pub fallback: Seq<Seq<char>>,
}

/// The lists with one more host entry of a codec.
pub open spec fn with_entry(lists: UrlLists, base: Seq<char>, info: JsonView) -> UrlLists {
    let host = text_or_empty(info, "host"@);
    match stream_address(host, base, text_or_empty(info, "extra"@)) {
        Some(url) => if contains(host, ".mcdn."@) {
            UrlLists { fallback: with_unique(lists.fallback, url), ..lists }
        } else {
            UrlLists { preferred: with_unique(lists.preferred, url), ..lists }
        },
        None => lists,
    }
}

/// The lists with the host entries of a codec.
pub open spec fn with_entries(lists: UrlLists, base: Seq<char>, infos: Seq<JsonView>) -> UrlLists
    decreases infos.len(),
{
    if infos.len() == 0 {
        lists
    } else {
        with_entry(with_entries(lists, base, infos.drop_last()), base, infos.last())
    }
}

/// The lists with one more codec entry.
pub open spec fn with_codec(lists: UrlLists, codec: JsonView) -> UrlLists {
    match items_at(codec, "url_info"@) {
        Some(infos) => with_entries(lists, text_or_empty(codec, "base_url"@), infos),
        None => lists,
    }
}

/// The lists of a number of codec entries.
pub open spec fn lists_of(codecs: Seq<JsonView>) -> UrlLists
    decreases codecs.len(),
{
    if codecs.len() == 0 {
        UrlLists { preferred: Seq::empty(), fallback: Seq::empty() }
    } else {
        with_codec(lists_of(codecs.drop_last()), codecs.last())
    }
}

/// The addresses of a number of codec entries: the ordinary hosts first, no address twice in
/// either part.
pub open spec fn stream_urls(codecs: Seq<JsonView>) -> Seq<Seq<char>> {
    lists_of(codecs).preferred + lists_of(codecs).fallback
}

/// The views of a list of references.
pub open spec fn refs_view(v: Seq<&Json>) -> Seq<JsonView> {
    Seq::new(v.len(), |i: int| v[i]@)
}

/// The addresses of a number of codec entries.
pub fn build_stream_urls(codecs: &Vec<&Json>) -> (r: Vec<String>)
    ensures
        texts(r@) == stream_urls(refs_view(codecs@)),
{
    let mut preferred: Vec<String> = Vec::new();
    let mut fallback: Vec<String> = Vec::new();
    let ghost all = refs_view(codecs@);
    let mut i: usize = 0;
    assert(all.take(0) =~= Seq::<JsonView>::empty());
    assert(texts(preferred@) =~= Seq::<Seq<char>>::empty());
    assert(texts(fallback@) =~= Seq::<Seq<char>>::empty());
    while i < codecs.len()
        invariant
            i <= codecs@.len(),
            all == refs_view(codecs@),
            lists_of(all.take(i as int)) == (UrlLists {
                preferred: texts(preferred@),
                fallback: texts(fallback@),
            }),
        decreases codecs.len() - i,
    {
        let codec = codecs[i];
        let ghost before = lists_of(all.take(i as int));
        assert(all.take(i + 1).drop_last() =~= all.take(i as int));
        assert(all.take(i + 1).last() == codec@);
        let base_url = codec.get_text_or_empty("base_url");
        if let Some(infos) = codec.get_array("url_info") {
            let ghost entries = list_view(infos@);
            let mut k: usize = 0;
            assert(entries.take(0) =~= Seq::<JsonView>::empty());
            while k < infos.len()
                invariant
                    k <= infos@.len(),
                    entries == list_view(infos@),
                    with_entries(before, base_url@, entries.take(k as int)) == (UrlLists {
                        preferred: texts(preferred@),
                        fallback: texts(fallback@),
                    }),
                decreases infos.len() - k,
            {
                assert(entries.take(k + 1).drop_last() =~= entries.take(k as int));
                assert(entries.take(k + 1).last() == infos@[k as int]@);
                let host = infos[k].get_text_or_empty("host");
                let extra = infos[k].get_text_or_empty("extra");
                if let Some(url) = join_stream_url(
                    host.as_str(),
                    base_url.as_str(),
                    extra.as_str(),
                ) {
                    if text_has(host.as_str(), ".mcdn.") {
                        push_unique_url(&mut fallback, url);
                    } else {
                        push_unique_url(&mut preferred, url);
                    }
                }
                k += 1;
            }
            assert(entries.take(k as int) =~= entries);
        }
        i += 1;
    }
    assert(all.take(i as int) =~= all);
    let ghost first = texts(preferred@);
    let ghost second = texts(fallback@);
    let ghost head = preferred@;
    let ghost tail = fallback@;
    preferred.append(&mut fallback);
    assert(texts(preferred@) =~= first + second);
    preferred
}

/// The entries that offer a quality, in order.
pub open spec fn offering(codecs: Seq<JsonView>, quality: i64) -> Seq<JsonView>
    decreases codecs.len(),
{
    if codecs.len() == 0 {
        Seq::empty()
    } else if offers(codecs.last(), quality) {
        offering(codecs.drop_last(), quality).push(codecs.last())
    } else {
        offering(codecs.drop_last(), quality)
    }
}

/// The entries that are used: those that offer the quality where one is asked for and any
/// does, else all of them.
pub open spec fn selected(codecs: Seq<JsonView>, with_quality: bool, quality: i64) -> Seq<
    JsonView,
> {
    if with_quality && offering(codecs, quality).len() > 0 {
        offering(codecs, quality)
    } else {
        codecs
    }
}

/// The value under three nested keys.
pub open spec fn nested(v: JsonView, a: Seq<char>, b: Seq<char>, c: Seq<char>) -> Option<JsonView> {
    match field(v, a) {
        Some(x) => match field(x, b) {
            Some(y) => field(y, c),
            None => None,
        },
        None => None,
    }
}

/// The codec entries of the FLV stream of an answer, or what is missing in it.
pub open spec fn flv_codecs(data: JsonView) -> Result<Seq<JsonView>, Seq<char>> {
    match nested(data, "playurl_info"@, "playurl"@, "stream"@) {
        Some(JsonView::Array(streams)) => match first_named(
            streams,
            "protocol_name"@,
            "http_stream"@,
        ) {
            Some(protocol) => match items_at(protocol, "format"@) {
                Some(formats) => match first_named(formats, "format_name"@, "flv"@) {
                    Some(format) => match items_at(format, "codec"@) {
                        Some(codecs) => if codecs.len() == 0 {
                            Err("直播流编码为空"@)
                        } else {
                            Ok(codecs)
                        },
                        None => Err("缺少直播流编码信息 codec"@),
                    },
                    None => Err("未找到 flv 格式直播流"@),
                },
                None => Err("缺少直播流格式信息 format"@),
            },
            None => Err("未找到 http_stream 协议直播流"@),
        },
        _ => Err("缺少直播流信息 playurl_info.playurl.stream"@),
    }
}

/// The addresses that an answer offers, or what is missing in it.
pub open spec fn offered_urls(data: JsonView, with_quality: bool, quality: i64) -> Result<
    Seq<Seq<char>>,
    Seq<char>,
> {
    match flv_codecs(data) {
        Ok(codecs) => {
            let urls = stream_urls(selected(codecs, with_quality, quality));
            if urls.len() == 0 {
                Err("直播流地址为空"@)
            } else {
                Ok(urls)
            }
        },
        Err(message) => Err(message),
    }
}

fn select_codecs<'a>(codecs: &'a Vec<Json>, with_quality: bool, quality: i64) -> (r: Vec<&'a Json>)
    ensures
        refs_view(r@) == selected(list_view(codecs@), with_quality, quality),
{
    let ghost all = list_view(codecs@);
    let mut out: Vec<&Json> = Vec::new();
    let mut i: usize = 0;
    assert(all.take(0) =~= Seq::<JsonView>::empty());
    assert(refs_view(out@) =~= Seq::<JsonView>::empty());
    if with_quality {
        while i < codecs.len()
            invariant
                i <= codecs@.len(),
                all == list_view(codecs@),
                refs_view(out@) == offering(all.take(i as int), quality),
            decreases codecs.len() - i,
        {
            assert(all.take(i + 1).drop_last() =~= all.take(i as int));
            assert(all.take(i + 1).last() == codecs@[i as int]@);
            let ghost before = refs_view(out@);
            if codec_matches_qn(&codecs[i], quality) {
                out.push(&codecs[i]);
                assert(refs_view(out@) =~= before.push(codecs@[i as int]@));
            }
            i += 1;
        }
        assert(all.take(i as int) =~= all);
        if out.len() > 0 {
            return out;
        }
    }
    let mut every: Vec<&Json> = Vec::new();
    let mut k: usize = 0;
    while k < codecs.len()
        invariant
            k <= codecs@.len(),
            every@.len() == k,
            forall|j: int| 0 <= j < k ==> (#[trigger] every@[j])@ == codecs@[j]@,
        decreases codecs.len() - k,
    {
        every.push(&codecs[k]);
        k += 1;
    }
    assert(refs_view(every@) =~= all);
    every
}

/// The addresses that an answer offers.
pub fn select_stream_urls(data: &Json, with_quality: bool, quality: i64) -> (r: Result<
    Vec<String>,
    String,
>)
    ensures
        match r {
            Ok(urls) => offered_urls(data@, with_quality, quality) == Ok::<
                Seq<Seq<char>>,
                Seq<char>,
            >(texts(urls@)),
            Err(message) => offered_urls(data@, with_quality, quality) == Err::<
                Seq<Seq<char>>,
                Seq<char>,
            >(message@),
        },
{
    let streams = match data.get("playurl_info") {
        Some(info) => match info.get("playurl") {
            Some(playurl) => playurl.get_array("stream"),
            None => None,
        },
        None => None,
    };
    let streams = match streams {
        Some(streams) => streams,
        None => {
            return Err(copy_text("缺少直播流信息 playurl_info.playurl.stream"));
        },
    };
    let protocol = match find_named(streams, "protocol_name", "http_stream") {
        Some(protocol) => protocol,
        None => {
            return Err(copy_text("未找到 http_stream 协议直播流"));
        },
    };
    let formats = match protocol.get_array("format") {
        Some(formats) => formats,
        None => {
            return Err(copy_text("缺少直播流格式信息 format"));
        },
    };
    let format = match find_named(formats, "format_name", "flv") {
        Some(format) => format,
        None => {
            return Err(copy_text("未找到 flv 格式直播流"));
        },
    };
    let codecs = match format.get_array("codec") {
        Some(codecs) => codecs,
        None => {
            return Err(copy_text("缺少直播流编码信息 codec"));
        },
    };
    if codecs.len() == 0 {
        return Err(copy_text("直播流编码为空"));
    }
    let selected_codecs = select_codecs(codecs, with_quality, quality);
    let urls = build_stream_urls(&selected_codecs);
    assert(texts(urls@).len() == urls@.len());
    if urls.len() == 0 {
        return Err(copy_text("直播流地址为空"));
    }
    Ok(urls)
}

proof fn lemma_entries_unique(lists: UrlLists, base: Seq<char>, infos: Seq<JsonView>)
    requires
        lists.preferred.no_duplicates(),
        lists.fallback.no_duplicates(),
    ensures
        with_entries(lists, base, infos).preferred.no_duplicates(),
        with_entries(lists, base, infos).fallback.no_duplicates(),
    decreases infos.len(),
{
    if infos.len() > 0 {
        lemma_entries_unique(lists, base, infos.drop_last());
    }
}

/// No address is listed twice among the ordinary hosts, nor among those used last.
pub proof fn law_urls_unique(codecs: Seq<JsonView>)
    ensures
        lists_of(codecs).preferred.no_duplicates(),
        lists_of(codecs).fallback.no_duplicates(),
    decreases codecs.len(),
{
    if codecs.len() > 0 {
        law_urls_unique(codecs.drop_last());
        if let Some(infos) = items_at(codecs.last(), "url_info"@) {
            lemma_entries_unique(
                lists_of(codecs.drop_last()),
                text_or_empty(codecs.last(), "base_url"@),
                infos,
            );
        }
    }
}

/// Tells whether an address is a playlist.
pub fn is_hls_url(url: &str) -> (r: bool)
    ensures
        r == contains(url@, ".m3u8"@),
{
    text_has(url, ".m3u8")
}

// ---------------------------------------------------------------------------
// Expiry

/// The value of a hexadecimal digit.
pub open spec fn hex_digit(c: char) -> Option<int> {
    if '0' <= c && c <= '9' {
        Some(c as int - '0' as int)
    } else if 'a' <= c && c <= 'f' {
        Some(c as int - 'a' as int + 10)
    } else if 'A' <= c && c <= 'F' {
        Some(c as int - 'A' as int + 10)
    } else {
        None
    }
}

/// Tells whether every character is a hexadecimal digit.
pub open spec fn all_hex(s: Seq<char>) -> bool {
    forall|i: int| 0 <= i < s.len() ==> hex_digit(#[trigger] s[i]) is Some
}

/// The number that a run of hexadecimal digits spells.
pub open spec fn hex_value(s: Seq<char>) -> int
    decreases s.len(),
{
    if s.len() == 0 {
        0
    } else {
        hex_value(s.drop_last()) * 16 + hex_digit(s.last())->0
    }
}

/// The `u64` that a sequence spells in hexadecimal digits, behind an optional plus sign.
pub open spec fn hex_u64(s: Seq<char>) -> Option<u64> {
    let body = if s.len() > 0 && s[0] == '+' {
        s.drop_first()
    } else {
        s
    };
    if body.len() > 0 && all_hex(body) && hex_value(body) <= u64::MAX {
        Some(hex_value(body) as u64)
    } else {
        None
    }
}

fn hex_digit_of(c: char) -> (r: Option<u64>)
    ensures
        match r {
            Some(d) => hex_digit(c) == Some(d as int) && d < 16,
            None => hex_digit(c) is None,
        },
{
    if '0' <= c && c <= '9' {
        Some((c as u32 - '0' as u32) as u64)
    } else if 'a' <= c && c <= 'f' {
        Some((c as u32 - 'a' as u32 + 10) as u64)
    } else if 'A' <= c && c <= 'F' {
        Some((c as u32 - 'A' as u32 + 10) as u64)
    } else {
        None
    }
}

/// Reads a `u64` from its hexadecimal form.
pub fn parse_hex(s: &[char]) -> (r: Option<u64>)
    ensures
        r == hex_u64(s@),
{
    let from: usize = if s.len() > 0 && s[0] == '+' {
        1
    } else {
        0
    };
    let ghost body = if s@.len() > 0 && s@[0] == '+' {
        s@.drop_first()
    } else {
        s@
    };
    assert(body =~= s@.skip(from as int));
    if s.len() - from == 0 {
        return None;
    }
    let mut v: u64 = 0;
    let mut fits: bool = true;
    let mut i: usize = from;
    assert(body.take(0) =~= Seq::<char>::empty());
    while i < s.len()
        invariant
            from <= i <= s@.len(),
            body == s@.skip(from as int),
            body == (if s@.len() > 0 && s@[0] == '+' {
                s@.drop_first()
            } else {
                s@
            }),
            forall|k: int| 0 <= k < i - from ==> hex_digit(#[trigger] body[k]) is Some,
            fits ==> v == hex_value(body.take(i - from)),
            !fits ==> hex_value(body.take(i - from)) > u64::MAX,
        decreases s.len() - i,
    {
        assert(body[i - from] == s@[i as int]);
        match hex_digit_of(s[i]) {
            Some(d) => {
                assert(body.take(i - from + 1).drop_last() =~= body.take(i - from));
                assert(body.take(i - from + 1).last() == s@[i as int]);
                if fits {
                    match v.checked_mul(16) {
                        Some(w) => match w.checked_add(d) {
                            Some(x) => {
                                v = x;
                            },
                            None => {
                                fits = false;
                            },
                        },
                        None => {
                            fits = false;
                        },
                    }
                }
            },
            None => {
                assert(hex_digit(body[i - from]) is None);
                return None;
            },
        }
        i += 1;
    }
    assert(body.take(i - from) =~= body);
    if fits {
        Some(v)
    } else {
        None
    }
}

/// The time that a query value spells: decimal where it is made of digits, else hexadecimal,
/// else decimal with a sign.
pub open spec fn expire_value(value: Seq<char>) -> Option<u64> {
    if value.len() == 0 {
        None
    } else if all_digits(value) {
        u64_value(value)
    } else {
        match hex_u64(value) {
            Some(n) => Some(n),
            None => u64_value(value),
        }
    }
}

/// The time that a query value spells.
pub fn parse_stream_expire_value(value: &str) -> (r: Option<u64>)
    ensures
        r == expire_value(value@),
{
    let chars = to_chars(value);
    if chars.len() == 0 {
        return None;
    }
    let mut digits: bool = true;
    let mut i: usize = 0;
    while i < chars.len()
        invariant
            i <= chars@.len(),
            chars@ == value@,
            digits <==> forall|k: int| 0 <= k < i ==> is_digit(#[trigger] chars@[k]),
        decreases chars.len() - i,
    {
        let c = chars[i];
        if !('0' <= c && c <= '9') {
            assert(!is_digit(chars@[i as int]));
            digits = false;
        }
        i += 1;
    }
    if digits {
        parse_u64(chars.as_slice())
    } else {
        match parse_hex(chars.as_slice()) {
            Some(n) => Some(n),
            None => parse_u64(chars.as_slice()),
        }
    }
}

/// The query keys that carry a time of expiry.
pub open spec fn is_expire_key(key: Seq<char>) -> bool {
    key == "expires"@ || key == "expire"@ || key == "deadline"@ || key == "txTime"@ || key
        == "wsTime"@
}

/// The earliest time of expiry among the query pairs.
pub open spec fn earliest_expiry(pairs: Seq<(Seq<char>, Seq<char>)>) -> Option<u64>
    decreases pairs.len(),
{
    if pairs.len() == 0 {
        None
    } else {
        let before = earliest_expiry(pairs.drop_last());
        if is_expire_key(pairs.last().0) {
            match expire_value(pairs.last().1) {
                Some(t) => match before {
                    Some(b) => Some(
                        if b < t {
                            b
                        } else {
                            t
                        },
                    ),
                    None => Some(t),
                },
                None => before,
            }
        } else {
            before
        }
    }
}

/// The earliest time of expiry among the query pairs.
pub fn earliest_expire(pairs: &Vec<(String, String)>) -> (r: Option<u64>)
    ensures
        r == earliest_expiry(pair_views(pairs@)),
{
    let ghost all = pair_views(pairs@);
    let mut result: Option<u64> = None;
    let mut i: usize = 0;
    assert(all.take(0) =~= Seq::<(Seq<char>, Seq<char>)>::empty());
    while i < pairs.len()
        invariant
            i <= pairs@.len(),
            all == pair_views(pairs@),
            result == earliest_expiry(all.take(i as int)),
        decreases pairs.len() - i,
    {
        assert(all.take(i + 1).drop_last() =~= all.take(i as int));
        assert(all.take(i + 1).last() == (pairs@[i as int].0@, pairs@[i as int].1@));
        let key = pairs[i].0.as_str();
        if text_eq(key, "expires") || text_eq(key, "expire") || text_eq(key, "deadline")
            || text_eq(key, "txTime") || text_eq(key, "wsTime") {
            if let Some(ts) = parse_stream_expire_value(pairs[i].1.as_str()) {
                result =
                match result {
                    Some(prev) => Some(
                        if prev < ts {
                            prev
                        } else {
                            ts
                        },
                    ),
                    None => Some(ts),
                };
            }
        }
        i += 1;
    }
    assert(all.take(i as int) =~= all);
    result
}

/// When an address expires: the earliest of the times in its query. Where it tells none, it
/// does not expire.
pub fn stream_url_expire_at(url: &str) -> (r: Option<u64>)
    ensures
        r == (match url_parts(url@) {
            Some(parts) => earliest_expiry(parts.2),
            None => None,
        }),
{
    match parse_url(url) {
        Some(parts) => earliest_expire(&parts.query),
        None => None,
    }
}

/// Tells whether an address that expires at the given time has to be fetched anew at `now`.
pub open spec fn refresh_due(expire: u64, lead_secs: u64, now: i64) -> bool {
    now >= 0 && (expire <= now + lead_secs || now + lead_secs > u64::MAX)
}

/// The time of expiry and the present time, where an address has to be fetched anew.
pub fn refresh_decision(expire: Option<u64>, lead_secs: u64, now: i64) -> (r: Option<(u64, u64)>)
    ensures
        r == (match expire {
            Some(e) => if refresh_due(e, lead_secs, now) {
                Some((e, now as u64))
            } else {
                None
            },
            None => None,
        }),
{
    let expire: u64 = match expire {
        Some(e) => e,
        None => {
            return None;
        },
    };
    if now < 0 {
        return None;
    }
    let present: u64 = now as u64;
    if expire <= present.saturating_add(lead_secs) {
        Some((expire, present))
    } else {
        None
    }
}

/// The time of expiry and the present time, where an address has to be fetched anew at the
/// given Unix time.
pub fn should_refresh_stream_url(url: &str, lead_secs: u64, now: i64) -> (r: Option<(u64, u64)>)
    ensures
        r == (match url_parts(url@) {
            Some(parts) => match earliest_expiry(parts.2) {
                Some(e) => if refresh_due(e, lead_secs, now) {
                    Some((e, now as u64))
                } else {
                    None
                },
                None => None,
            },
            None => None,
        }),
{
    refresh_decision(stream_url_expire_at(url), lead_secs, now)
}

/// An address that has to be fetched anew stays so as time goes on.
pub proof fn law_refresh_stays_due(expire: u64, lead_secs: u64, now: i64, later: i64)
    requires
        refresh_due(expire, lead_secs, now),
        now <= later,
    ensures
        refresh_due(expire, lead_secs, later),
{
}

// ---------------------------------------------------------------------------
// Rooms

/// What is known of a live room.
pub struct LiveRoomInfo {
    pub room_id: String,
    pub uid: String,
    pub live_status: i64,
    pub title: String,
    pub cover: Option<String>,
    pub area_name: Option<String>,
    pub parent_area_name: Option<String>,
}

/// The decimal form of a number under a key, or another text where there is none.
pub open spec fn id_text(v: JsonView, key: Seq<char>, other: Seq<char>) -> Seq<char> {
    match loose_integer_at(v, key) {
        Some(n) => decimal(n as int),
        None => other,
    }
}

/// The text under the first of three keys that has one.
pub open spec fn first_text(v: JsonView, a: Seq<char>, b: Seq<char>, c: Seq<char>) -> Option<
    Seq<char>,
> {
    if text_at(v, a) is Some {
        text_at(v, a)
    } else if text_at(v, b) is Some {
        text_at(v, b)
    } else {
        text_at(v, c)
    }
}

fn id_or(v: &Json, key: &str, other: &str) -> (r: String)
    ensures
        r@ == id_text(v@, key@, other@),
{
    match v.get_loose_i64(key) {
        Some(n) => i64_text(n),
        None => copy_text(other),
    }
}

/// What an answer tells of a live room.
pub fn parse_room_info(data: &Json, room_id: &str) -> (r: Result<LiveRoomInfo, String>)
    ensures
        match field(data@, "room_info"@) {
            Some(room) => r matches Ok(info) && {
                &&& info.room_id@ == id_text(room, "room_id"@, room_id@)
                &&& info.uid@ == id_text(room, "uid"@, "0"@)
                &&& info.live_status == crate::json::or_number(
                    loose_integer_at(room, "live_status"@),
                    0,
                )
                &&& info.title@ == (match text_at(room, "title"@) {
                    Some(t) => t,
                    None => "直播标题"@,
                })
                &&& crate::session::opt_text(info.cover) == first_text(
                    room,
                    "cover"@,
                    "keyframe"@,
                    "user_cover"@,
                )
                &&& crate::session::opt_text(info.area_name) == text_at(room, "area_name"@)
                &&& crate::session::opt_text(info.parent_area_name) == text_at(
                    room,
                    "parent_area_name"@,
                )
            },
            None => r matches Err(message) && message@ == "缺少直播间信息 room_info"@,
        },
{
    let room = match data.get("room_info") {
        Some(room) => room,
        None => {
            return Err(copy_text("缺少直播间信息 room_info"));
        },
    };
    let mut cover = room.get_text("cover");
    if cover.is_none() {
        cover = room.get_text("keyframe");
    }
    if cover.is_none() {
        cover = room.get_text("user_cover");
    }
    Ok(
        LiveRoomInfo {
            room_id: id_or(room, "room_id", room_id),
            uid: id_or(room, "uid", "0"),
            live_status: match room.get_loose_i64("live_status") {
                Some(n) => n,
                None => 0,
            },
            title: match room.get_text("title") {
                Some(t) => t,
                None => copy_text("直播标题"),
            },
            cover,
            area_name: room.get_text("area_name"),
            parent_area_name: room.get_text("parent_area_name"),
        },
    )
}

// ---------------------------------------------------------------------------
// Requests and reports

pub(crate) fn pair(key: &str, value: &str) -> (r: (String, String))
    ensures
        r.0@ == key@,
        r.1@ == value@,
{
    (copy_text(key), copy_text(value))
}

/// The parameters of the request for the addresses of a room.
pub fn play_params(room_id: &str, quality: i64) -> (r: Vec<(String, String)>)
    ensures
        pair_views(r@) == seq![
            ("room_id"@, room_id@),
            ("no_playurl"@, "0"@),
            ("mask"@, "1"@),
            ("qn"@, decimal(quality as int)),
            ("platform"@, "web"@),
            ("protocol"@, "0,1"@),
            ("format"@, "0,1,2"@),
            ("codec"@, "0,1,2"@),
            ("dolby"@, "5"@),
            ("panorama"@, "1"@),
            ("hdr_type"@, "0,1"@),
            ("web_location"@, "444.8"@),
        ],
{
    let qn = i64_text(quality);
    let r: Vec<(String, String)> = vec![
        pair("room_id", room_id),
        pair("no_playurl", "0"),
        pair("mask", "1"),
        pair("qn", qn.as_str()),
        pair("platform", "web"),
        pair("protocol", "0,1"),
        pair("format", "0,1,2"),
        pair("codec", "0,1,2"),
        pair("dolby", "5"),
        pair("panorama", "1"),
        pair("hdr_type", "0,1"),
        pair("web_location", "444.8"),
    ];
    assert(pair_views(r@) =~= seq![
            ("room_id"@, room_id@),
            ("no_playurl"@, "0"@),
            ("mask"@, "1"@),
            ("qn"@, decimal(quality as int)),
            ("platform"@, "web"@),
            ("protocol"@, "0,1"@),
            ("format"@, "0,1,2"@),
            ("codec"@, "0,1,2"@),
            ("dolby"@, "5"@),
            ("panorama"@, "1"@),
            ("hdr_type"@, "0,1"@),
            ("web_location"@, "444.8"@),
    ]);
    r
}

/// The last value under one of two keys.
pub open spec fn last_of(
    pairs: Seq<(Seq<char>, Seq<char>)>,
    first: Seq<char>,
    second: Seq<char>,
) -> Option<Seq<char>>
    decreases pairs.len(),
{
    if pairs.len() == 0 {
        None
    } else if pairs.last().0 == first || pairs.last().0 == second {
        Some(pairs.last().1)
    } else {
        last_of(pairs.drop_last(), first, second)
    }
}

/// A text, or a dash where there is none.
pub open spec fn or_dash(v: Option<Seq<char>>) -> Seq<char> {
    match v {
        Some(s) => s,
        None => "-"@,
    }
}

fn last_or_dash(pairs: &Vec<(String, String)>, first: &str, second: &str) -> (r: String)
    ensures
        r@ == or_dash(last_of(pair_views(pairs@), first@, second@)),
{
    let ghost all = pair_views(pairs@);
    let mut n: usize = pairs.len();
    assert(all.take(all.len() as int) =~= all);
    while n > 0
        invariant
            n <= pairs@.len(),
            all == pair_views(pairs@),
            last_of(all.take(n as int), first@, second@) == last_of(all, first@, second@),
        decreases n,
    {
        assert(all.take(n as int).drop_last() =~= all.take(n - 1));
        assert(all.take(n as int).last() == all[n - 1]);
        let key = pairs[n - 1].0.as_str();
        if text_eq(key, first) || text_eq(key, second) {
            return copy_text(pairs[n - 1].1.as_str());
        }
        n -= 1;
    }
    assert(all.take(0) =~= Seq::<(Seq<char>, Seq<char>)>::empty());
    copy_text("-")
}

/// What a report says of an address: its host and path, and the times in its query, without
/// the rest of the query.
pub open spec fn url_report(
    host: Option<Seq<char>>,
    path: Seq<char>,
    pairs: Seq<(Seq<char>, Seq<char>)>,
) -> Seq<char> {
    "host="@ + or_dash(host) + " path="@ + path + " expires="@ + or_dash(
        last_of(pairs, "expires"@, "expire"@),
    ) + " txTime="@ + or_dash(last_of(pairs, "txTime"@, "txTime"@)) + " wsTime="@ + or_dash(
        last_of(pairs, "wsTime"@, "wsTime"@),
    )
}

/// What a report says of an address with the given parts.
pub fn stream_url_report(
    host: &Option<String>,
    path: &str,
    pairs: &Vec<(String, String)>,
) -> (r: String)
    ensures
        r@ == url_report(
            match *host {
                Some(h) => Some(h@),
                None => None,
            },
            path@,
            pair_views(pairs@),
        ),
{
    let mut out = to_chars("host=");
    match host {
        Some(h) => extend_text(&mut out, h.as_str()),
        None => extend_text(&mut out, "-"),
    }
    extend_text(&mut out, " path=");
    extend_text(&mut out, path);
    extend_text(&mut out, " expires=");
    extend_text(&mut out, last_or_dash(pairs, "expires", "expire").as_str());
    extend_text(&mut out, " txTime=");
    extend_text(&mut out, last_or_dash(pairs, "txTime", "txTime").as_str());
    extend_text(&mut out, " wsTime=");
    extend_text(&mut out, last_or_dash(pairs, "wsTime", "wsTime").as_str());
    to_text(out.as_slice())
}

/// What a report says of an address.
pub fn summarize_stream_url(url: &str) -> (r: String)
    ensures
        r@ == (match url_parts(url@) {
            Some(parts) => url_report(parts.0, parts.1, parts.2),
            None => "host=- path=- expires=- txTime=- wsTime=-"@,
        }),
{
    match parse_url(url) {
        Some(parts) => stream_url_report(&parts.host, parts.path.as_str(), &parts.query),
        None => copy_text("host=- path=- expires=- txTime=- wsTime=-"),
    }
}

// ---------------------------------------------------------------------------
// What is offered, and until when

/// The quality is that of the first part that names one; where none does, it is the original
/// quality.
pub proof fn law_first_quality_named(parts: Seq<Seq<char>>, i: int)
    requires
        forall|k: int| 0 <= k < i ==> quality_number(#[trigger] parts[k]) is None,
        0 <= i <= parts.len(),
    ensures
        i < parts.len() && quality_number(parts[i]) is Some ==> Some(first_quality(parts))
            == quality_number(parts[i]),
        i == parts.len() ==> first_quality(parts) == 10000,
    decreases parts.len(),
{
    if i > 0 {
        assert(parts[0] == parts[0int]);
        assert forall|k: int| 0 <= k < i - 1 implies quality_number(
            #[trigger] parts.drop_first()[k],
        ) is None by {
            assert(parts.drop_first()[k] == parts[k + 1]);
        }
        law_first_quality_named(parts.drop_first(), i - 1);
        if i < parts.len() {
            assert(parts.drop_first()[i - 1] == parts[i]);
        }
    }
}

proof fn lemma_only_digits(s: Seq<char>)
    requires
        all_digits(s),
    ensures
        only_digits(s) == s,
    decreases s.len(),
{
    if s.len() > 0 {
        assert forall|i: int| 0 <= i < s.drop_last().len() implies is_digit(
            #[trigger] s.drop_last()[i],
        ) by {
            assert(s.drop_last()[i] == s[i]);
        }
        assert(is_digit(s[s.len() - 1]));
        lemma_only_digits(s.drop_last());
        assert(s.drop_last().push(s.last()) =~= s);
    }
}

/// A part of digits alone names the quality of that number, unless it is zero.
pub proof fn law_digits_name_quality(s: Seq<char>)
    requires
        all_digits(s),
    ensures
        quality_number(s) == (match i64_value(s) {
            Some(n) => if n > 0 {
                Some(n)
            } else {
                None
            },
            None => None,
        }),
{
    lemma_only_digits(s);
}

proof fn lemma_first_named(list: Seq<JsonView>, key: Seq<char>, value: Seq<char>, i: int)
    requires
        0 <= i < list.len(),
        text_at(list[i], key) == Some(value),
        forall|k: int| 0 <= k < i ==> text_at(#[trigger] list[k], key) != Some(value),
    ensures
        first_named(list, key, value) == Some(list[i]),
    decreases list.len(),
{
    if i > 0 {
        assert(text_at(list[0], key) != Some(value));
        let rest = list.drop_first();
        assert forall|k: int| 0 <= k < i - 1 implies text_at(#[trigger] rest[k], key) != Some(
            value,
        ) by {
            assert(rest[k] == list[k + 1]);
        }
        assert(rest[i - 1] == list[i]);
        lemma_first_named(rest, key, value, i - 1);
    }
}

/// The stream is taken over plain HTTP, in the FLV format, wherever in their lists the two stand.
pub proof fn law_flv_over_http(
    data: JsonView,
    info: JsonView,
    play: JsonView,
    streams: Seq<JsonView>,
    i: int,
    formats: Seq<JsonView>,
    j: int,
    codecs: Seq<JsonView>,
)
    requires
        field(data, "playurl_info"@) == Some(info),
        field(info, "playurl"@) == Some(play),
        field(play, "stream"@) == Some(JsonView::Array(streams)),
        0 <= i < streams.len(),
        text_at(streams[i], "protocol_name"@) == Some("http_stream"@),
        forall|k: int|
            0 <= k < i ==> text_at(#[trigger] streams[k], "protocol_name"@) != Some(
                "http_stream"@,
            ),
        items_at(streams[i], "format"@) == Some(formats),
        0 <= j < formats.len(),
        text_at(formats[j], "format_name"@) == Some("flv"@),
        forall|k: int|
            0 <= k < j ==> text_at(#[trigger] formats[k], "format_name"@) != Some("flv"@),
        items_at(formats[j], "codec"@) == Some(codecs),
        codecs.len() > 0,
    ensures
        flv_codecs(data) == Ok::<Seq<JsonView>, Seq<char>>(codecs),
{
    lemma_first_named(streams, "protocol_name"@, "http_stream"@, i);
    lemma_first_named(formats, "format_name"@, "flv"@, j);
}

/// An encoding offers the quality that it has now and each that it lists; where no quality is asked
/// for, each will do.
pub proof fn law_offered_qualities(codec: JsonView, quality: i64, list: Seq<JsonView>, i: int)
    ensures
        quality <= 0 ==> offers(codec, quality),
        loose_integer_at(codec, "current_qn"@) == Some(quality) ==> offers(codec, quality),
        items_at(codec, "accept_qn"@) == Some(list) && 0 <= i < list.len() && loose_integer(list[i])
            == Some(quality) ==> offers(codec, quality),
        quality > 0 && loose_integer_at(codec, "current_qn"@) != Some(quality) && items_at(
            codec,
            "accept_qn"@,
        ) is None ==> !offers(codec, quality),
{
}

proof fn lemma_offering(codecs: Seq<JsonView>, quality: i64)
    ensures
        forall|i: int|
            0 <= i < codecs.len() && offers(#[trigger] codecs[i], quality) ==> offering(
                codecs,
                quality,
            ).contains(codecs[i]),
        forall|k: int|
            0 <= k < offering(codecs, quality).len() ==> offers(
                #[trigger] offering(codecs, quality)[k],
                quality,
            ) && codecs.contains(offering(codecs, quality)[k]),
    decreases codecs.len(),
{
    if codecs.len() > 0 {
        let rest = codecs.drop_last();
        lemma_offering(rest, quality);
        let all = offering(codecs, quality);
        let some = offering(rest, quality);
        assert forall|i: int| 0 <= i < codecs.len() && offers(#[trigger] codecs[i], quality) implies
            all.contains(codecs[i]) by {
            if i < rest.len() {
                assert(rest[i] == codecs[i]);
                let k = choose|k: int| 0 <= k < some.len() && some[k] == rest[i];
                assert(all[k] == codecs[i]);
            } else {
                assert(all[some.len() as int] == codecs[i]);
            }
        }
        assert forall|k: int| 0 <= k < all.len() implies offers(#[trigger] all[k], quality)
            && codecs.contains(all[k]) by {
            if k < some.len() {
                assert(all[k] == some[k]);
                let i = choose|i: int| 0 <= i < rest.len() && rest[i] == some[k];
                assert(codecs[i] == all[k]);
            } else {
                assert(codecs[codecs.len() - 1] == all[k]);
            }
        }
    }
}

/// Where a quality is asked for and some encoding offers it, those that offer it are taken, all of
/// them and no others; else every encoding is.
pub proof fn law_asked_quality_taken(codecs: Seq<JsonView>, quality: i64, i: int)
    requires
        0 <= i < codecs.len(),
    ensures
        selected(codecs, false, quality) == codecs,
        offers(codecs[i], quality) ==> selected(codecs, true, quality).contains(codecs[i]),
        offers(codecs[i], quality) ==> forall|k: int|
            0 <= k < selected(codecs, true, quality).len() ==> offers(
                #[trigger] selected(codecs, true, quality)[k],
                quality,
            ),
        (forall|k: int| 0 <= k < codecs.len() ==> !offers(#[trigger] codecs[k], quality))
            ==> selected(codecs, true, quality) == codecs,
{
    lemma_offering(codecs, quality);
    if offering(codecs, quality).len() > 0 {
        let first = offering(codecs, quality)[0];
        assert(codecs.contains(first));
        let k = choose|k: int| 0 <= k < codecs.len() && codecs[k] == first;
        assert(offers(codecs[k], quality));
    }
}

/// One slash stands between the host and the path, whoever brings it, and an address that is whole
/// keeps its own host.
pub proof fn law_one_slash_between(host: Seq<char>, path: Seq<char>, extra: Seq<char>)
    requires
        host.len() > 0,
        host.last() != '/',
        path.len() > 0,
        path[0] != '/',
        !starts_with(path, "http://"@),
        !starts_with(path, "https://"@),
    ensures
        stream_address(host, path, extra) == Some(host + seq!['/'] + path + extra),
        stream_address(host, seq!['/'] + path, extra) == Some(host + seq!['/'] + path + extra),
        stream_address(host + seq!['/'], path, extra) == Some(host + seq!['/'] + path + extra),
        stream_address(host + seq!['/'], seq!['/'] + path, extra) == Some(
            host + seq!['/'] + path + extra,
        ),
        stream_address(Seq::empty(), path, extra) is None,
{
    reveal_strlit("http://");
    reveal_strlit("https://");
    let slashed = seq!['/'] + path;
    assert(slashed[0] == '/');
    assert("http://"@[0] == 'h' && "https://"@[0] == 'h');
    assert(!starts_with(slashed, "http://"@)) by {
        if starts_with(slashed, "http://"@) {
            assert(slashed.subrange(0, 0 + "http://"@.len() as int)[0] == 'h');
        }
    }
    assert(!starts_with(slashed, "https://"@)) by {
        if starts_with(slashed, "https://"@) {
            assert(slashed.subrange(0, 0 + "https://"@.len() as int)[0] == 'h');
        }
    }
    let ended = host + seq!['/'];
    assert(ended.last() == '/');
    assert(ended.drop_last() =~= host);
    assert(trim_end_char(host, '/') == host);
    assert(trim_end_char(ended, '/') == host);
    let whole = host + seq!['/'] + path + extra;
    assert(host + slashed + extra =~= whole);
}

/// An address that is whole is taken as it is, with what is appended.
pub proof fn law_whole_address_kept(host: Seq<char>, base: Seq<char>, extra: Seq<char>)
    requires
        starts_with(base, "http://"@) || starts_with(base, "https://"@),
    ensures
        stream_address(host, base, extra) == Some(base + extra),
{
    reveal_strlit("http://");
    reveal_strlit("https://");
}

/// The address that one entry of an encoding stands for.
pub open spec fn address_at(codecs: Seq<JsonView>, i: int, j: int) -> Option<Seq<char>> {
    let info = items_at(codecs[i], "url_info"@)->0[j];
    stream_address(
        text_or_empty(info, "host"@),
        text_or_empty(codecs[i], "base_url"@),
        text_or_empty(info, "extra"@),
    )
}

/// Tells whether the host of an entry is one of a peer network.
pub open spec fn through_peers(codecs: Seq<JsonView>, i: int, j: int) -> bool {
    contains(text_or_empty(items_at(codecs[i], "url_info"@)->0[j], "host"@), ".mcdn."@)
}

proof fn lemma_entries(lists: UrlLists, base: Seq<char>, infos: Seq<JsonView>, j: int)
    ensures
        forall|u: Seq<char>|
            lists.preferred.contains(u) ==> #[trigger] with_entries(
                lists,
                base,
                infos,
            ).preferred.contains(u),
        forall|u: Seq<char>|
            lists.fallback.contains(u) ==> #[trigger] with_entries(
                lists,
                base,
                infos,
            ).fallback.contains(u),
        0 <= j < infos.len() ==> {
            let host = text_or_empty(infos[j], "host"@);
            let url = stream_address(host, base, text_or_empty(infos[j], "extra"@));
            url is Some ==> if contains(host, ".mcdn."@) {
                with_entries(lists, base, infos).fallback.contains(url->0)
            } else {
                with_entries(lists, base, infos).preferred.contains(url->0)
            }
        },
    decreases infos.len(),
{
    if infos.len() > 0 {
        let rest = infos.drop_last();
        lemma_entries(lists, base, rest, j);
        let before = with_entries(lists, base, rest);
        let after = with_entries(lists, base, infos);
        let host = text_or_empty(infos.last(), "host"@);
        let url = stream_address(host, base, text_or_empty(infos.last(), "extra"@));
        if url is Some {
            lemma_unique(before.preferred, url->0);
            lemma_unique(before.fallback, url->0);
        }
        if 0 <= j < rest.len() {
            assert(rest[j] == infos[j]);
        }
    }
}

proof fn lemma_unique(list: Seq<Seq<char>>, url: Seq<char>)
    ensures
        with_unique(list, url).contains(url),
        forall|u: Seq<char>| list.contains(u) ==> #[trigger] with_unique(list, url).contains(u),
{
    let after = with_unique(list, url);
    if !list.contains(url) {
        assert(after[list.len() as int] == url);
    }
    assert forall|u: Seq<char>| list.contains(u) implies #[trigger] after.contains(u) by {
        let k = choose|k: int| 0 <= k < list.len() && list[k] == u;
        assert(after[k] == u);
    }
}

proof fn lemma_codecs(codecs: Seq<JsonView>, i: int, j: int)
    requires
        0 <= i < codecs.len(),
        items_at(codecs[i], "url_info"@) is Some,
        0 <= j < items_at(codecs[i], "url_info"@)->0.len(),
        address_at(codecs, i, j) is Some,
    ensures
        through_peers(codecs, i, j) ==> lists_of(codecs).fallback.contains(
            address_at(codecs, i, j)->0,
        ),
        !through_peers(codecs, i, j) ==> lists_of(codecs).preferred.contains(
            address_at(codecs, i, j)->0,
        ),
    decreases codecs.len(),
{
    let rest = codecs.drop_last();
    let last = codecs.last();
    if items_at(last, "url_info"@) is Some {
        lemma_entries(
            lists_of(rest),
            text_or_empty(last, "base_url"@),
            items_at(last, "url_info"@)->0,
            j,
        );
    }
    if i < rest.len() {
        assert(rest[i] == codecs[i]);
        lemma_codecs(rest, i, j);
    }
}

/// Every address that the encodings hold is among those that are tried, and those through a peer
/// network come behind all that are not.
pub proof fn law_every_address_is_tried(codecs: Seq<JsonView>, i: int, j: int)
    requires
        0 <= i < codecs.len(),
        items_at(codecs[i], "url_info"@) is Some,
        0 <= j < items_at(codecs[i], "url_info"@)->0.len(),
        address_at(codecs, i, j) is Some,
    ensures
        exists|k: int|
            0 <= k < stream_urls(codecs).len() && #[trigger] stream_urls(codecs)[k] == address_at(
                codecs,
                i,
                j,
            )->0 && (if through_peers(codecs, i, j) {
                k >= lists_of(codecs).preferred.len()
            } else {
                k < lists_of(codecs).preferred.len()
            }),
{
    lemma_codecs(codecs, i, j);
    let url = address_at(codecs, i, j)->0;
    let first = lists_of(codecs).preferred;
    let second = lists_of(codecs).fallback;
    if through_peers(codecs, i, j) {
        let k = choose|k: int| 0 <= k < second.len() && second[k] == url;
        assert(stream_urls(codecs)[first.len() + k] == url);
    } else {
        let k = choose|k: int| 0 <= k < first.len() && first[k] == url;
        assert(stream_urls(codecs)[k] == url);
    }
}

proof fn lemma_origin_entries(lists: UrlLists, base: Seq<char>, infos: Seq<JsonView>, k: int)
    requires
        0 <= k < with_entries(lists, base, infos).preferred.len(),
    ensures
        ({
            let u = with_entries(lists, base, infos).preferred[k];
            lists.preferred.contains(u) || exists|j: int|
                0 <= j < infos.len() && stream_address(
                    text_or_empty(#[trigger] infos[j], "host"@),
                    base,
                    text_or_empty(infos[j], "extra"@),
                ) == Some(u) && !contains(text_or_empty(infos[j], "host"@), ".mcdn."@)
        }),
    decreases infos.len(),
{
    let u = with_entries(lists, base, infos).preferred[k];
    if infos.len() == 0 {
        assert(lists.preferred[k] == u);
    } else {
        let rest = infos.drop_last();
        let before = with_entries(lists, base, rest).preferred;
        if k < before.len() {
            assert(before[k] == u);
            lemma_origin_entries(lists, base, rest, k);
            if !lists.preferred.contains(u) {
                let j = choose|j: int|
                    0 <= j < rest.len() && stream_address(
                        text_or_empty(#[trigger] rest[j], "host"@),
                        base,
                        text_or_empty(rest[j], "extra"@),
                    ) == Some(u) && !contains(text_or_empty(rest[j], "host"@), ".mcdn."@);
                assert(infos[j] == rest[j]);
            }
        } else {
            let j = infos.len() - 1;
            assert(infos[j] == infos.last());
        }
    }
}

/// What is tried first is never an address through a peer network, and is held by some encoding.
pub proof fn law_first_tried_are_direct(codecs: Seq<JsonView>, k: int)
    requires
        0 <= k < lists_of(codecs).preferred.len(),
    ensures
        exists|i: int, j: int|
            0 <= i < codecs.len() && items_at(codecs[i], "url_info"@) is Some && 0 <= j < items_at(
                codecs[i],
                "url_info"@,
            )->0.len() && #[trigger] address_at(codecs, i, j) == Some(
                lists_of(codecs).preferred[k],
            ) && !through_peers(codecs, i, j),
    decreases codecs.len(),
{
    let u = lists_of(codecs).preferred[k];
    let rest = codecs.drop_last();
    let last = codecs.last();
    let n = codecs.len() - 1;
    let before = lists_of(rest).preferred;
    let infos = items_at(last, "url_info"@);
    if infos is Some {
        lemma_origin_entries(lists_of(rest), text_or_empty(last, "base_url"@), infos->0, k);
    }
    if before.contains(u) {
        let m = choose|m: int| 0 <= m < before.len() && before[m] == u;
        law_first_tried_are_direct(rest, m);
        let (i, j) = choose|i: int, j: int|
            0 <= i < rest.len() && items_at(rest[i], "url_info"@) is Some && 0 <= j < items_at(
                rest[i],
                "url_info"@,
            )->0.len() && #[trigger] address_at(rest, i, j) == Some(u) && !through_peers(
                rest,
                i,
                j,
            );
        assert(codecs[i] == rest[i]);
        assert(address_at(codecs, i, j) == Some(u) && !through_peers(codecs, i, j));
    } else {
        assert(infos is Some);
        let list = infos->0;
        let base = text_or_empty(last, "base_url"@);
        let j = choose|j: int|
            0 <= j < list.len() && stream_address(
                text_or_empty(#[trigger] list[j], "host"@),
                base,
                text_or_empty(list[j], "extra"@),
            ) == Some(u) && !contains(text_or_empty(list[j], "host"@), ".mcdn."@);
        assert(codecs[n] == last);
        assert(address_at(codecs, n, j) == Some(u) && !through_peers(codecs, n, j));
    }
}

/// An address expires at the first of the times that its parameters tell, and each of those is the
/// value of one that is named for it.
pub proof fn law_first_expiry_counts(pairs: Seq<(Seq<char>, Seq<char>)>, i: int)
    ensures
        0 <= i < pairs.len() && (pairs[i].0 == "expires"@ || pairs[i].0 == "expire"@ || pairs[i].0
            == "deadline"@ || pairs[i].0 == "txTime"@ || pairs[i].0 == "wsTime"@) && expire_value(
            pairs[i].1,
        ) is Some ==> earliest_expiry(pairs) is Some && earliest_expiry(pairs)->0 <= expire_value(
            pairs[i].1,
        )->0,
        earliest_expiry(pairs) is Some ==> exists|k: int|
            0 <= k < pairs.len() && expire_value((#[trigger] pairs[k]).1) == earliest_expiry(pairs)
                && (pairs[k].0 == "expires"@ || pairs[k].0 == "expire"@ || pairs[k].0
                == "deadline"@ || pairs[k].0 == "txTime"@ || pairs[k].0 == "wsTime"@),
    decreases pairs.len(),
{
    if pairs.len() > 0 {
        let rest = pairs.drop_last();
        law_first_expiry_counts(rest, i);
        let n = pairs.len() - 1;
        assert(pairs[n] == pairs.last());
        if 0 <= i < rest.len() {
            assert(rest[i] == pairs[i]);
        }
        if earliest_expiry(pairs) is Some {
            if earliest_expiry(pairs) == earliest_expiry(rest) {
                let k = choose|k: int|
                    0 <= k < rest.len() && expire_value((#[trigger] rest[k]).1) == earliest_expiry(
                        rest,
                    ) && (rest[k].0 == "expires"@ || rest[k].0 == "expire"@ || rest[k].0
                        == "deadline"@ || rest[k].0 == "txTime"@ || rest[k].0 == "wsTime"@);
                assert(pairs[k] == rest[k]);
            } else {
                assert(expire_value(pairs[n].1) == earliest_expiry(pairs));
            }
        }
    }
}

/// The value of a place, counted from the right, in base sixteen.
pub open spec fn place(n: nat) -> int
    decreases n,
{
    if n == 0 {
        1
    } else {
        16 * place((n - 1) as nat)
    }
}

/// A digit counts by its place, and the digits are those of base sixteen, large or small.
pub proof fn law_hex_places(c: char, s: Seq<char>)
    ensures
        hex_value(seq![c] + s) == (hex_digit(c)->0) * place(s.len()) + hex_value(s),
        hex_value(Seq::empty()) == 0,
        forall|k: int|
            0 <= k < 16 ==> hex_digit(#[trigger] "0123456789abcdef"@[k]) == Some(k) && hex_digit(
                "0123456789ABCDEF"@[k],
            ) == Some(k),
    decreases s.len(),
{
    reveal_strlit("0123456789abcdef");
    reveal_strlit("0123456789ABCDEF");
    let whole = seq![c] + s;
    let d = hex_digit(c)->0;
    if s.len() == 0 {
        assert(whole.drop_last() =~= Seq::<char>::empty());
        assert(whole.last() == c);
        assert(place(s.len()) == 1);
        reveal_with_fuel(hex_value, 2);
        assert(d * 1 == d);
    } else {
        assert(whole.drop_last() =~= seq![c] + s.drop_last());
        assert(whole.last() == s.last());
        law_hex_places(c, s.drop_last());
        let p = place(s.drop_last().len());
        let h = hex_value(s.drop_last());
        assert((d * p + h) * 16 == d * (16 * p) + h * 16) by (nonlinear_arith);
    }
}

/// A time of digits alone is a decimal number; any other that can be is one in base sixteen.
pub proof fn law_expiry_number(value: Seq<char>)
    requires
        value.len() > 0,
    ensures
        all_digits(value) ==> expire_value(value) == u64_value(value),
        !all_digits(value) && all_hex(value) && hex_value(value) <= u64::MAX ==> expire_value(value)
            == Some(hex_value(value) as u64),
{
    if all_hex(value) {
        assert(hex_digit(value[0]) is Some);
    }
}

/// An address is fetched anew once no more than the lead is left of its time, and not before.
pub proof fn law_refresh_when_lead_left(expire: u64, lead_secs: u64, now: i64)
    requires
        0 <= now,
        now + lead_secs <= u64::MAX,
    ensures
        refresh_due(expire, lead_secs, now) == (expire - now <= lead_secs),
{
}

proof fn lemma_last_of(
    pairs: Seq<(Seq<char>, Seq<char>)>,
    first: Seq<char>,
    second: Seq<char>,
    i: int,
)
    requires
        0 <= i < pairs.len(),
        pairs[i].0 == first || pairs[i].0 == second,
        forall|k: int|
            i < k < pairs.len() ==> (#[trigger] pairs[k]).0 != first && pairs[k].0 != second,
    ensures
        last_of(pairs, first, second) == Some(pairs[i].1),
    decreases pairs.len(),
{
    let n = pairs.len() - 1;
    assert(pairs[n] == pairs.last());
    if i < n {
        let rest = pairs.drop_last();
        assert(rest[i] == pairs[i]);
        assert forall|k: int| i < k < rest.len() implies (#[trigger] rest[k]).0 != first && rest[k].0
            != second by {
            assert(rest[k] == pairs[k]);
        }
        lemma_last_of(rest, first, second, i);
    }
}

/// The report on an address tells its host, its path and its times, each the last that the
/// parameters give.
pub proof fn law_report_tells_times(
    host: Seq<char>,
    path: Seq<char>,
    pairs: Seq<(Seq<char>, Seq<char>)>,
    e: int,
    t: int,
    w: int,
)
    requires
        0 <= e < pairs.len(),
        0 <= t < pairs.len(),
        0 <= w < pairs.len(),
        pairs[e].0 == "expires"@,
        pairs[t].0 == "txTime"@,
        pairs[w].0 == "wsTime"@,
        forall|k: int|
            e < k < pairs.len() ==> (#[trigger] pairs[k]).0 != "expires"@ && pairs[k].0
                != "expire"@,
        forall|k: int| t < k < pairs.len() ==> (#[trigger] pairs[k]).0 != "txTime"@,
        forall|k: int| w < k < pairs.len() ==> (#[trigger] pairs[k]).0 != "wsTime"@,
    ensures
        url_report(Some(host), path, pairs) == "host="@ + host + " path="@ + path + " expires="@
            + pairs[e].1 + " txTime="@ + pairs[t].1 + " wsTime="@ + pairs[w].1,
        url_report(None, path, Seq::empty()) == "host="@ + "-"@ + " path="@ + path + " expires="@
            + "-"@ + " txTime="@ + "-"@ + " wsTime="@ + "-"@,
{
    lemma_last_of(pairs, "expires"@, "expire"@, e);
    lemma_last_of(pairs, "txTime"@, "txTime"@, t);
    lemma_last_of(pairs, "wsTime"@, "wsTime"@, w);
}

/// What is offered is what the taken encodings hold, in the order in which it is tried; without any
/// address there is an error.
pub proof fn law_offer_is_what_is_held(
    data: JsonView,
    codecs: Seq<JsonView>,
    with_quality: bool,
    quality: i64,
)
    requires
        flv_codecs(data) == Ok::<Seq<JsonView>, Seq<char>>(codecs),
    ensures
        stream_urls(selected(codecs, with_quality, quality)).len() > 0 ==> offered_urls(
            data,
            with_quality,
            quality,
        ) == Ok::<Seq<Seq<char>>, Seq<char>>(stream_urls(selected(codecs, with_quality, quality))),
        stream_urls(selected(codecs, with_quality, quality)).len() == 0 ==> offered_urls(
            data,
            with_quality,
            quality,
        ) == Err::<Seq<Seq<char>>, Seq<char>>("直播流地址为空"@),
{
}

/// A number is told as such or as a text, and shown in decimal form.
pub proof fn law_number_shown(v: JsonView, key: Seq<char>, n: i64, other: Seq<char>)
    ensures
        field(v, key) == Some(JsonView::Number(n as int)) ==> id_text(v, key, other) == decimal(
            n as int,
        ),
        field(v, key) == Some(JsonView::Str(decimal(n as int))) ==> id_text(v, key, other)
            == decimal(n as int),
        field(v, key) is None ==> id_text(v, key, other) == other,
{
    crate::text::lemma_decimal_round_trip(n);
}

} // verus!
