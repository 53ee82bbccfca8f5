//! Addresses in text that is no markup: scripts, event handlers and redirections.

use vstd::prelude::*;

use crate::text::{
    is_blank, is_white, law_stripping_keeps_the_core, law_trimming_keeps_the_core, replace, replaced,
    trim, trim_matches, trimmed, trimmed_of,
};

verus! {

/// Absolute addresses.
pub const ABSOLUTE_URL: &'static str = r#"https?:\\?/\\?/[^"'<>\s\\]+"#;

/// Quoted names of files.
pub const QUOTED_FILE: &'static str =
    r#"(?:"|')([^"']+\.(?:m3u8|mpd|mp4|m4v|webm|mkv|mov|avi|flv|ts|mp3|m4a|zip|rar|7z|pdf)(?:\?[^"']*)?)(?:"|')"#;

/// Quoted addresses that a script opens.
pub const OPENED_URL: &'static str =
    r#"(?:location(?:\.href)?|window\.open|open)\s*(?:=|\()\s*["']([^"']+)["']"#;

/// Quoted addresses that are given as such.
pub const NAMED_URL: &'static str = r#"(?:url|href|redirect)\s*[:=]\s*["']([^"']+)["']"#;

/// Quoted texts that promise a download or a player.
pub const PROMISING_TEXT: &'static str =
    r#"["']([^"']*(?:download|descarga|descargar|server|mirror|embed|player|stream|watch)[^"']*)["']"#;

/// The address in a redirection.
pub const REDIRECTION: &'static str = r#"(?i)\burl\s*=\s*([^;]+)"#;

/// One match of a pattern: the whole of it, and its first group.
pub type Capture = (Option<String>, Option<String>);

/// One match of a pattern: the whole of it, and its first group.
pub type CaptureView = (Option<Seq<char>>, Option<Seq<char>>);

/// What one match says.
pub open spec fn capture_view(capture: Capture) -> CaptureView {
    (capture.0.deep_view(), capture.1.deep_view())
}

/// What a list of matches says.
pub open spec fn captures_view(captures: Seq<Capture>) -> Seq<CaptureView> {
    captures.map_values(|capture: Capture| capture_view(capture))
}

/// The matches of a pattern in a text, from left to right; none at all where the pattern is no
/// regular expression.
pub uninterp spec fn regex_matches(pattern: Seq<char>, text: Seq<char>) -> Option<Seq<CaptureView>>;

/// The first group of the first match of a pattern in a text.
pub uninterp spec fn regex_first_group(pattern: Seq<char>, text: Seq<char>) -> Option<Seq<char>>;

/// Finds the matches of a pattern in a text.
///
/// Trusted: `Regex::new` and `Regex::captures_iter` are functions of the pattern and the text
/// alone. What a pattern matches is left to the name.
#[verifier::external_body]
fn find_all(pattern: &str, text: &str) -> (captures: Option<Vec<Capture>>)
    ensures
        match captures {
            Some(list) => regex_matches(pattern@, text@) == Some(captures_view(list@)),
            None => regex_matches(pattern@, text@) is None,
        },
{
    let regex = regex::Regex::new(pattern).ok()?;
    let captures = regex.captures_iter(text).map(|capture| {
        let whole = capture.get(0).map(|part| part.as_str().to_string());
        let group = capture.get(1).map(|part| part.as_str().to_string());
        (whole, group)
    });
    Some(captures.collect())
}

/// Finds the first group of the first match of a pattern in a text.
///
/// Trusted: `Regex::new` and `Regex::captures` are functions of the pattern and the text alone.
/// There is no result where the pattern is no regular expression, does not match, or matches
/// without its first group. What a pattern matches is left to the name.
#[verifier::external_body]
fn find_first(pattern: &str, text: &str) -> (group: Option<String>)
    ensures
        group.deep_view() == regex_first_group(pattern@, text@),
{
    let regex = regex::Regex::new(pattern).ok()?;
    let capture = regex.captures(text)?;
    capture.get(1).map(|part| part.as_str().to_string())
}

/// `text` without the escapes that scripts and markup put into addresses.
pub open spec fn unescaped(text: Seq<char>) -> Seq<char> {
    replaced(replaced(text, "\\/"@, "/"@), "&amp;"@, "&"@)
}

/// `text` without the escapes that scripts and markup put into addresses.
pub fn unescape(text: &str) -> (result: String)
    ensures
        result@ == unescaped(text@),
{
    proof {
        reveal_strlit("\\/");
        reveal_strlit("&amp;");
    }
    replace(replace(text, "\\/", "/").as_str(), "&amp;", "&")
}

/// The quotes of a script.
pub open spec fn quotes() -> Seq<char> {
    seq!['"', '\'']
}

/// The list with `item` at its end, unless it is there already.
pub open spec fn with_item(list: Seq<Seq<char>>, item: Seq<char>) -> Seq<Seq<char>> {
    if list.contains(item) {
        list
    } else {
        list.push(item)
    }
}

/// Whether `item` is in the list.
pub fn is_listed(list: &Vec<String>, item: &String) -> (found: bool)
    ensures
        found == list.deep_view().contains(item@),
{
    let mut i: usize = 0;
    assert(list.deep_view().len() == list@.len());
    while i < list.len()
        invariant
            i <= list@.len(),
            list.deep_view().len() == list@.len(),
            forall|k: int| 0 <= k < i ==> #[trigger] list.deep_view()[k] != item@,
        decreases list@.len() - i,
    {
        assert(list.deep_view()[i as int] == list@[i as int]@);
        if list[i] == *item {
            return true;
        }
        i += 1;
    }
    false
}

/// Puts `item` at the end of the list, unless it is there already.
pub fn add_item(list: &mut Vec<String>, item: String)
    ensures
        final(list).deep_view() == with_item(old(list).deep_view(), item@),
{
    if !is_listed(list, &item) {
        let ghost before = list.deep_view();
        let ghost text = item@;
        list.push(item);
        assert(list.deep_view() =~= before.push(text));
    }
}

/// The address in a match in free text: its group, else the whole of it.
pub open spec fn matched_url(capture: CaptureView) -> Option<Seq<char>> {
    match capture {
        (_, Some(group)) => Some(unescaped(trimmed_of(group, quotes()))),
        (Some(whole), None) => Some(unescaped(trimmed_of(whole, quotes()))),
        (None, None) => None,
    }
}

/// The list with the addresses in the matches, each once.
pub open spec fn with_urls(list: Seq<Seq<char>>, captures: Seq<CaptureView>) -> Seq<Seq<char>>
    decreases captures.len(),
{
    if captures.len() == 0 {
        list
    } else {
        let before = with_urls(list, captures.drop_last());
        match matched_url(captures.last()) {
            Some(url) => with_item(before, url),
            None => before,
        }
    }
}

/// The address in a match in an event handler: its group.
pub open spec fn matched_target(capture: CaptureView) -> Option<Seq<char>> {
    match capture.1 {
        Some(group) => Some(unescaped(trimmed(group))),
        None => None,
    }
}

/// The list with the addresses that an event handler opens, each once.
pub open spec fn with_targets(list: Seq<Seq<char>>, captures: Seq<CaptureView>) -> Seq<Seq<char>>
    decreases captures.len(),
{
    if captures.len() == 0 {
        list
    } else {
        let before = with_targets(list, captures.drop_last());
        match matched_target(captures.last()) {
            Some(url) => with_item(before, url),
            None => before,
        }
    }
}

/// Puts the addresses in the matches into the list, each once.
pub fn add_urls(list: &mut Vec<String>, captures: &Vec<Capture>)
    ensures
        final(list).deep_view() == with_urls(old(list).deep_view(), captures_view(captures@)),
{
    let marks = ['"', '\''];
    assert(marks@ =~= quotes());
    let ghost all = captures_view(captures@);
    let mut i: usize = 0;
    while i < captures.len()
        invariant
            marks@ == quotes(),
            i <= captures@.len(),
            all == captures_view(captures@),
            list.deep_view() == with_urls(old(list).deep_view(), all.take(i as int)),
        decreases captures@.len() - i,
    {
        assert(all.take(i + 1).drop_last() =~= all.take(i as int));
        assert(all.take(i + 1).last() == capture_view(captures@[i as int]));
        match &captures[i].1 {
            Some(group) => {
                let url = unescape(trim_matches(group.as_str(), &marks).as_str());
                add_item(list, url);
            },
            None => {
                if let Some(whole) = &captures[i].0 {
                    let url = unescape(trim_matches(whole.as_str(), &marks).as_str());
                    add_item(list, url);
                }
            },
        }
        i += 1;
    }
    assert(all.take(i as int) =~= all);
}

/// Puts the addresses that an event handler opens into the list, each once.
pub fn add_targets(list: &mut Vec<String>, captures: &Vec<Capture>)
    ensures
        final(list).deep_view() == with_targets(old(list).deep_view(), captures_view(captures@)),
{
    let ghost all = captures_view(captures@);
    let mut i: usize = 0;
    while i < captures.len()
        invariant
            i <= captures@.len(),
            all == captures_view(captures@),
            list.deep_view() == with_targets(old(list).deep_view(), all.take(i as int)),
        decreases captures@.len() - i,
    {
        assert(all.take(i + 1).drop_last() =~= all.take(i as int));
        assert(all.take(i + 1).last() == capture_view(captures@[i as int]));
        if let Some(group) = &captures[i].1 {
            let url = unescape(trim(group.as_str()).as_str());
            add_item(list, url);
        }
        i += 1;
    }
    assert(all.take(i as int) =~= all);
}

/// The matches of a pattern, none where it is no regular expression.
pub open spec fn matches_of(pattern: Seq<char>, text: Seq<char>) -> Seq<CaptureView> {
    match regex_matches(pattern, text) {
        Some(captures) => captures,
        None => seq![],
    }
}

fn captures_of(pattern: &str, text: &str) -> (captures: Vec<Capture>)
    ensures
        captures_view(captures@) == matches_of(pattern@, text@),
{
    match find_all(pattern, text) {
        Some(captures) => captures,
        None => {
            let captures: Vec<Capture> = Vec::new();
            assert(captures_view(captures@) =~= Seq::<CaptureView>::empty());
            captures
        },
    }
}

/// The addresses in free text, each once: the absolute ones, then the quoted names of files.
pub open spec fn urls_in(text: Seq<char>) -> Seq<Seq<char>> {
    with_urls(with_urls(seq![], matches_of(ABSOLUTE_URL@, text)), matches_of(QUOTED_FILE@, text))
}

/// The addresses in free text, each once: the absolute ones, then the quoted names of files.
pub fn harvest_urls_from_text(html: &str) -> (urls: Vec<String>)
    ensures
        urls.deep_view() == urls_in(html@),
{
    let mut urls: Vec<String> = Vec::new();
    assert(urls.deep_view() =~= Seq::<Seq<char>>::empty());
    add_urls(&mut urls, &captures_of(ABSOLUTE_URL, html));
    add_urls(&mut urls, &captures_of(QUOTED_FILE, html));
    urls
}

/// The addresses that an event handler opens, each once: those in its text, then those it names.
pub open spec fn targets_in(handler: Seq<char>) -> Seq<Seq<char>> {
    with_targets(
        with_targets(
            with_targets(urls_in(handler), matches_of(OPENED_URL@, handler)),
            matches_of(NAMED_URL@, handler),
        ),
        matches_of(PROMISING_TEXT@, handler),
    )
}

/// The addresses that an event handler opens, each once: those in its text, then those it names.
pub fn harvest_navigation_targets(value: &str) -> (urls: Vec<String>)
    ensures
        urls.deep_view() == targets_in(value@),
{
    let mut urls = harvest_urls_from_text(value);
    add_targets(&mut urls, &captures_of(OPENED_URL, value));
    add_targets(&mut urls, &captures_of(NAMED_URL, value));
    add_targets(&mut urls, &captures_of(PROMISING_TEXT, value));
    urls
}

/// The address in a redirection, without white space and quotes around it.
pub open spec fn bare_target(group: Option<Seq<char>>) -> Option<Seq<char>> {
    match group {
        Some(text) => {
            let target = trimmed_of(trimmed(text), quotes());
            if target.len() == 0 {
                None
            } else {
                Some(target)
            }
        },
        None => None,
    }
}

/// The address in a redirection, without white space and quotes around it.
pub fn clean_target(group: Option<String>) -> (target: Option<String>)
    ensures
        target.deep_view() == bare_target(group.deep_view()),
{
    match group {
        Some(text) => {
            let marks = ['"', '\''];
            assert(marks@ =~= quotes());
            let target = trim_matches(trim(text.as_str()).as_str(), &marks);
            if target.as_str().is_empty() {
                None
            } else {
                Some(target)
            }
        },
        None => None,
    }
}

/// The address that a page's redirection leads to.
pub open spec fn refresh_target(value: Seq<char>) -> Option<Seq<char>> {
    bare_target(regex_first_group(REDIRECTION@, value))
}

/// The address that a page's redirection leads to.
pub fn meta_refresh_target(value: &str) -> (target: Option<String>)
    ensures
        target.deep_view() == refresh_target(value@),
{
    clean_target(find_first(REDIRECTION, value))
}

proof fn lemma_with_urls_distinct(list: Seq<Seq<char>>, captures: Seq<CaptureView>)
    requires
        list.no_duplicates(),
    ensures
        with_urls(list, captures).no_duplicates(),
    decreases captures.len(),
{
    if captures.len() > 0 {
        lemma_with_urls_distinct(list, captures.drop_last());
    }
}

proof fn lemma_with_targets_distinct(list: Seq<Seq<char>>, captures: Seq<CaptureView>)
    requires
        list.no_duplicates(),
    ensures
        with_targets(list, captures).no_duplicates(),
        list.is_prefix_of(with_targets(list, captures)),
    decreases captures.len(),
{
    if captures.len() > 0 {
        lemma_with_targets_distinct(list, captures.drop_last());
    }
}

/// What is harvested holds no address twice, and an event handler yields at least what its text
/// yields.
pub proof fn law_harvest_is_distinct(text: Seq<char>)
    ensures
        urls_in(text).no_duplicates(),
        targets_in(text).no_duplicates(),
        urls_in(text).is_prefix_of(targets_in(text)),
{
    let first = with_urls(seq![], matches_of(ABSOLUTE_URL@, text));
    lemma_with_urls_distinct(seq![], matches_of(ABSOLUTE_URL@, text));
    lemma_with_urls_distinct(first, matches_of(QUOTED_FILE@, text));
    let urls = urls_in(text);
    let opened = with_targets(urls, matches_of(OPENED_URL@, text));
    let named = with_targets(opened, matches_of(NAMED_URL@, text));
    lemma_with_targets_distinct(urls, matches_of(OPENED_URL@, text));
    lemma_with_targets_distinct(opened, matches_of(NAMED_URL@, text));
    lemma_with_targets_distinct(named, matches_of(PROMISING_TEXT@, text));
}

/// An address as it is meant, of a match in free text: without the quotes at its ends, with plain
/// slashes and plain ampersands.
pub open spec fn meant_url(capture: CaptureView) -> Option<Seq<char>> {
    let matched = match capture.1 {
        Some(group) => Some(group),
        None => capture.0,
    };
    match matched {
        Some(text) => Some(
            replaced(
                replaced(trimmed_of(text, seq!['"', '\'']), "\\/"@, "/"@),
                "&amp;"@,
                "&"@,
            ),
        ),
        None => None,
    }
}

/// An address as it is meant, of a match in an event handler: without the white space at its ends,
/// with plain slashes and plain ampersands.
pub open spec fn meant_target(capture: CaptureView) -> Option<Seq<char>> {
    match capture.1 {
        Some(group) => Some(
            replaced(replaced(trimmed(group), "\\/"@, "/"@), "&amp;"@, "&"@),
        ),
        None => None,
    }
}

/// One of the matches of the pattern in the text means that address.
pub open spec fn is_matched_url(pattern: Seq<char>, text: Seq<char>, url: Seq<char>) -> bool {
    regex_matches(pattern, text) matches Some(list) && exists|i: int|
        0 <= i < list.len() && meant_url(#[trigger] list[i]) == Some(url)
}

/// One of the matches of the pattern in the event handler means that address.
pub open spec fn is_matched_target(pattern: Seq<char>, text: Seq<char>, url: Seq<char>) -> bool {
    regex_matches(pattern, text) matches Some(list) && exists|i: int|
        0 <= i < list.len() && meant_target(#[trigger] list[i]) == Some(url)
}

proof fn lemma_with_item(list: Seq<Seq<char>>, item: Seq<char>, other: Seq<char>)
    ensures
        with_item(list, item).contains(other) <==> list.contains(other) || item == other,
{
    let all = with_item(list, item);
    if !list.contains(item) {
        assert(all[list.len() as int] == item);
        if list.contains(other) {
            let k = choose|k: int| 0 <= k < list.len() && list[k] == other;
            assert(all[k] == other);
        }
        if all.contains(other) {
            let k = choose|k: int| 0 <= k < all.len() && all[k] == other;
            if k < list.len() {
                assert(list[k] == other);
            }
        }
    }
}

proof fn lemma_with_urls(list: Seq<Seq<char>>, captures: Seq<CaptureView>, url: Seq<char>)
    ensures
        with_urls(list, captures).contains(url) <==> list.contains(url) || exists|i: int|
            0 <= i < captures.len() && meant_url(#[trigger] captures[i]) == Some(url),
    decreases captures.len(),
{
    if captures.len() > 0 {
        let before = captures.drop_last();
        let last = captures.last();
        lemma_with_urls(list, before, url);
        assert(captures[captures.len() - 1] == last);
        assert(matched_url(last) == meant_url(last));
        if let Some(item) = matched_url(last) {
            lemma_with_item(with_urls(list, before), item, url);
        }
        if exists|i: int| 0 <= i < before.len() && meant_url(#[trigger] before[i]) == Some(url) {
            let i = choose|i: int|
                0 <= i < before.len() && meant_url(#[trigger] before[i]) == Some(url);
            assert(captures[i] == before[i]);
        }
        if exists|i: int| 0 <= i < captures.len() && meant_url(#[trigger] captures[i]) == Some(
            url,
        ) {
            let i = choose|i: int|
                0 <= i < captures.len() && meant_url(#[trigger] captures[i]) == Some(url);
            if i < before.len() {
                assert(before[i] == captures[i]);
            }
        }
    }
}

proof fn lemma_with_targets(list: Seq<Seq<char>>, captures: Seq<CaptureView>, url: Seq<char>)
    ensures
        with_targets(list, captures).contains(url) <==> list.contains(url) || exists|i: int|
            0 <= i < captures.len() && meant_target(#[trigger] captures[i]) == Some(url),
    decreases captures.len(),
{
    if captures.len() > 0 {
        let before = captures.drop_last();
        let last = captures.last();
        lemma_with_targets(list, before, url);
        assert(captures[captures.len() - 1] == last);
        assert(matched_target(last) == meant_target(last));
        if let Some(item) = matched_target(last) {
            lemma_with_item(with_targets(list, before), item, url);
        }
        if exists|i: int| 0 <= i < before.len() && meant_target(#[trigger] before[i]) == Some(url) {
            let i = choose|i: int|
                0 <= i < before.len() && meant_target(#[trigger] before[i]) == Some(url);
            assert(captures[i] == before[i]);
        }
        if exists|i: int| 0 <= i < captures.len() && meant_target(#[trigger] captures[i]) == Some(
            url,
        ) {
            let i = choose|i: int|
                0 <= i < captures.len() && meant_target(#[trigger] captures[i]) == Some(url);
            if i < before.len() {
                assert(before[i] == captures[i]);
            }
        }
    }
}

/// What is harvested from a text are the addresses that its matches mean, all of them and no
/// others: those of absolute addresses, and those of quoted names of files.
pub proof fn law_harvested_urls(text: Seq<char>, url: Seq<char>)
    ensures
        urls_in(text).contains(url) <==> is_matched_url(
            r#"https?:\\?/\\?/[^"'<>\s\\]+"#@,
            text,
            url,
        ) || is_matched_url(
            r#"(?:"|')([^"']+\.(?:m3u8|mpd|mp4|m4v|webm|mkv|mov|avi|flv|ts|mp3|m4a|zip|rar|7z|pdf)(?:\?[^"']*)?)(?:"|')"#@,
            text,
            url,
        ),
{
    let first = matches_of(ABSOLUTE_URL@, text);
    lemma_with_urls(seq![], first, url);
    lemma_with_urls(with_urls(seq![], first), matches_of(QUOTED_FILE@, text), url);
}

/// What is harvested from an event handler is what is harvested from its text, and besides it the
/// addresses that it opens, that it names as such, or that promise a download or a player.
pub proof fn law_harvested_targets(handler: Seq<char>, url: Seq<char>)
    ensures
        targets_in(handler).contains(url) <==> {
            ||| urls_in(handler).contains(url)
            ||| is_matched_target(
                r#"(?:location(?:\.href)?|window\.open|open)\s*(?:=|\()\s*["']([^"']+)["']"#@,
                handler,
                url,
            )
            ||| is_matched_target(
                r#"(?:url|href|redirect)\s*[:=]\s*["']([^"']+)["']"#@,
                handler,
                url,
            )
            ||| is_matched_target(
                r#"["']([^"']*(?:download|descarga|descargar|server|mirror|embed|player|stream|watch)[^"']*)["']"#@,
                handler,
                url,
            )
        },
{
    let urls = urls_in(handler);
    let opened = with_targets(urls, matches_of(OPENED_URL@, handler));
    let named = with_targets(opened, matches_of(NAMED_URL@, handler));
    lemma_with_targets(urls, matches_of(OPENED_URL@, handler), url);
    lemma_with_targets(opened, matches_of(NAMED_URL@, handler), url);
    lemma_with_targets(named, matches_of(PROMISING_TEXT@, handler), url);
}

/// A redirection leads to the address that it names, without the white space and the quotes around
/// it; one that names none leads nowhere.
pub proof fn law_redirections(
    value: Seq<char>,
    left: Seq<char>,
    opening: Seq<char>,
    target: Seq<char>,
    closing: Seq<char>,
    right: Seq<char>,
)
    requires
        is_blank(left),
        is_blank(right),
        forall|i: int| 0 <= i < opening.len() ==> opening[i] == '"' || opening[i] == '\'',
        forall|i: int| 0 <= i < closing.len() ==> closing[i] == '"' || closing[i] == '\'',
        target.len() > 0,
        !is_white(target[0]) && target[0] != '"' && target[0] != '\'',
        !is_white(target.last()) && target.last() != '"' && target.last() != '\'',
    ensures
        regex_first_group(r#"(?i)\burl\s*=\s*([^;]+)"#@, value) == Some(
            left + (opening + target + closing) + right,
        ) ==> refresh_target(value) == Some(target),
        regex_first_group(r#"(?i)\burl\s*=\s*([^;]+)"#@, value) is None ==> refresh_target(value) is None,
{
    let quoted = opening + target + closing;
    let marks = seq!['"', '\''];
    assert(marks[0] == '"' && marks[1] == '\'');
    assert(quoted[0] == if opening.len() > 0 {
        opening[0]
    } else {
        target[0]
    });
    assert(quoted.last() == if closing.len() > 0 {
        closing[closing.len() - 1]
    } else {
        target.last()
    });
    law_trimming_keeps_the_core(left, quoted, right);
    law_stripping_keeps_the_core(opening, target, closing, marks);
}

} // verus!
