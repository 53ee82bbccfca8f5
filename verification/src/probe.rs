//! What yt-dlp reports of an address: the request made of it and the entries in its answer.

use vstd::prelude::*;

use crate::json::{
    duration_of, duration_string, elements, json_of_text, json_view, member, parse_json,
    string_member, value_string, Json, JsonView,
};
use crate::text::{law_trimming, same_text, trim, trimmed};
use crate::tools::{
    append_browser_args, append_runtime_args, browser_args, browser_choice, clean_process_error,
    error_or, has_option, push_arg, runtime_args, unknown_browser_message,
};
use crate::unicode::{decode_lossy, lossy_text};

verus! {

/// Something that can be downloaded.
#[derive(Debug)]
pub struct ProbeEntry {
    pub id: Option<String>,
    pub title: Option<String>,
    pub url: String,
    pub webpage_url: Option<String>,
    pub duration: Option<String>,
    pub kind: Option<String>,
    pub source: Option<String>,
    pub resolutions: Vec<u32>,
}

/// Something that can be downloaded.
#[verifier::ext_equal]
pub struct EntryView {
    pub id: Option<Seq<char>>,
    pub title: Option<Seq<char>>,
    pub url: Seq<char>,
    pub webpage_url: Option<Seq<char>>,
    pub duration: Option<Seq<char>>,
    pub kind: Option<Seq<char>>,
    pub source: Option<Seq<char>>,
    pub resolutions: Seq<u32>,
}

impl View for ProbeEntry {
    type V = EntryView;

    open spec fn view(&self) -> EntryView {
        EntryView {
            id: self.id.deep_view(),
            title: self.title.deep_view(),
            url: self.url@,
            webpage_url: self.webpage_url.deep_view(),
            duration: self.duration.deep_view(),
            kind: self.kind.deep_view(),
            source: self.source.deep_view(),
            resolutions: self.resolutions@,
        }
    }
}

/// What a list of entries says.
pub open spec fn entries_view(entries: Seq<ProbeEntry>) -> Seq<EntryView> {
    entries.map_values(|entry: ProbeEntry| entry@)
}

/// What was found at an address.
#[derive(Debug)]
pub struct ProbeResult {
    pub source_url: String,
    pub title: Option<String>,
    pub entries: Vec<ProbeEntry>,
}

/// What was found at an address.
#[verifier::ext_equal]
pub struct ResultView {
    pub source_url: Seq<char>,
    pub title: Option<Seq<char>>,
    pub entries: Seq<EntryView>,
}

impl View for ProbeResult {
    type V = ResultView;

    open spec fn view(&self) -> ResultView {
        ResultView {
            source_url: self.source_url@,
            title: self.title.deep_view(),
            entries: entries_view(self.entries@),
        }
    }
}

/// The height of the picture in a format, where it has a picture of a known height.
pub open spec fn height_of(format: JsonView) -> Option<u32> {
    match (member(format, "vcodec"@), member(format, "height"@)) {
        (Some(JsonView::Str(codec)), Some(JsonView::Number(number))) => match number.unsigned {
            Some(height) => if codec != "none"@ && 0 < height <= u32::MAX {
                Some(height as u32)
            } else {
                None
            },
            None => None,
        },
        _ => None,
    }
}

/// A list that falls from each element to the next.
pub open spec fn is_falling(list: Seq<u32>) -> bool {
    forall|i: int, j: int| 0 <= i < j < list.len() ==> list[i] > list[j]
}

/// The falling list with `height` put in its place, unless it is there already.
pub open spec fn inserted(list: Seq<u32>, height: u32) -> Seq<u32>
    decreases list.len(),
{
    if list.len() == 0 {
        seq![height]
    } else if list[0] == height {
        list
    } else if list[0] < height {
        seq![height] + list
    } else {
        seq![list[0]] + inserted(list.skip(1), height)
    }
}

/// The heights of the formats, the highest first and each once.
pub open spec fn heights_of(formats: Seq<JsonView>) -> Seq<u32>
    decreases formats.len(),
{
    if formats.len() == 0 {
        seq![]
    } else {
        let before = heights_of(formats.drop_last());
        match height_of(formats.last()) {
            Some(height) => inserted(before, height),
            None => before,
        }
    }
}

/// The heights in which a document is offered, the highest first and each once.
pub open spec fn resolutions_of(json: JsonView) -> Seq<u32> {
    match elements(member(json, "formats"@)) {
        Some(formats) => heights_of(formats),
        None => seq![],
    }
}

/// Some format of the document has pictures of the given height.
pub open spec fn is_offered(json: JsonView, height: u32) -> bool {
    elements(member(json, "formats"@)) matches Some(formats) && exists|i: int|
        0 <= i < formats.len() && height_of(#[trigger] formats[i]) == Some(height)
}

proof fn lemma_inserted(list: Seq<u32>, height: u32)
    requires
        is_falling(list),
    ensures
        is_falling(inserted(list, height)),
        forall|h: u32|
            #[trigger] inserted(list, height).contains(h) <==> list.contains(h) || h == height,
    decreases list.len(),
{
    let result = inserted(list, height);
    if list.len() == 0 {
        assert(result[0] == height);
    } else if list[0] == height {
    } else if list[0] < height {
        assert(result[0] == height);
        assert forall|h: u32| #[trigger] result.contains(h) <==> list.contains(h) || h == height by {
            if list.contains(h) {
                let i = choose|i: int| 0 <= i < list.len() && list[i] == h;
                assert(result[i + 1] == h);
            }
            if result.contains(h) {
                let i = choose|i: int| 0 <= i < result.len() && result[i] == h;
                if i > 0 {
                    assert(list[i - 1] == h);
                }
            }
        }
    } else {
        let rest = list.skip(1);
        let more = inserted(rest, height);
        assert(is_falling(rest));
        lemma_inserted(rest, height);
        assert forall|h: u32| #[trigger] result.contains(h) <==> list.contains(h) || h == height by {
            if list.contains(h) {
                let i = choose|i: int| 0 <= i < list.len() && list[i] == h;
                if i == 0 {
                    assert(result[0] == h);
                } else {
                    assert(rest[i - 1] == h);
                    assert(rest.contains(h));
                    assert(more.contains(h));
                    let k = choose|k: int| 0 <= k < more.len() && more[k] == h;
                    assert(result[k + 1] == h);
                }
            }
            if h == height {
                assert(more.contains(h));
                let k = choose|k: int| 0 <= k < more.len() && more[k] == h;
                assert(result[k + 1] == h);
            }
            if result.contains(h) {
                let i = choose|i: int| 0 <= i < result.len() && result[i] == h;
                if i == 0 {
                    assert(list[0] == h);
                } else {
                    assert(more[i - 1] == h);
                    assert(more.contains(h));
                    if rest.contains(h) {
                        let k = choose|k: int| 0 <= k < rest.len() && rest[k] == h;
                        assert(list[k + 1] == h);
                    }
                }
            }
        }
        assert forall|i: int, j: int| 0 <= i < j < result.len() implies result[i] > result[j] by {
            assert(result[j] == more[j - 1]);
            if i > 0 {
                assert(result[i] == more[i - 1]);
            } else {
                assert(more.contains(more[j - 1]));
                if rest.contains(more[j - 1]) {
                    let k = choose|k: int| 0 <= k < rest.len() && rest[k] == more[j - 1];
                    assert(list[k + 1] == more[j - 1]);
                }
            }
        }
    }
}

proof fn lemma_heights(formats: Seq<JsonView>)
    ensures
        is_falling(heights_of(formats)),
        forall|h: u32| #[trigger]
            heights_of(formats).contains(h) <==> exists|i: int|
                0 <= i < formats.len() && height_of(#[trigger] formats[i]) == Some(h),
    decreases formats.len(),
{
    if formats.len() > 0 {
        let before = formats.drop_last();
        lemma_heights(before);
        if let Some(height) = height_of(formats.last()) {
            lemma_inserted(heights_of(before), height);
        }
        assert forall|h: u32| #[trigger]
            heights_of(formats).contains(h) <==> exists|i: int|
                0 <= i < formats.len() && height_of(#[trigger] formats[i]) == Some(h) by {
            if exists|i: int| 0 <= i < formats.len() && height_of(#[trigger] formats[i]) == Some(h) {
                let i = choose|i: int|
                    0 <= i < formats.len() && height_of(#[trigger] formats[i]) == Some(h);
                if i < formats.len() - 1 {
                    assert(before[i] == formats[i]);
                    assert(heights_of(before).contains(h));
                }
            }
            if heights_of(before).contains(h) {
                let i = choose|i: int|
                    0 <= i < before.len() && height_of(#[trigger] before[i]) == Some(h);
                assert(formats[i] == before[i]);
            }
            assert(formats[formats.len() - 1] == formats.last());
        }
    }
}

/// The resolutions of a document are the offered ones, each once, the highest first.
pub proof fn law_resolutions_unique_and_falling(json: JsonView)
    ensures
        is_falling(resolutions_of(json)),
        forall|h: u32| #[trigger] resolutions_of(json).contains(h) <==> is_offered(json, h),
{
    if let Some(formats) = elements(member(json, "formats"@)) {
        lemma_heights(formats);
    }
}

proof fn lemma_inserted_at(list: Seq<u32>, height: u32, at: int)
    requires
        0 <= at <= list.len(),
        forall|k: int| 0 <= k < at ==> #[trigger] list[k] > height,
        at < list.len() ==> list[at] <= height,
    ensures
        inserted(list, height) == if at < list.len() && list[at] == height {
            list
        } else {
            list.insert(at, height)
        },
    decreases at,
{
    if at == 0 {
        assert(list.insert(0, height) =~= seq![height] + list);
    } else {
        let rest = list.skip(1);
        assert forall|k: int| 0 <= k < at - 1 implies #[trigger] rest[k] > height by {
            assert(rest[k] == list[k + 1]);
        }
        lemma_inserted_at(rest, height, at - 1);
        assert(seq![list[0]] + rest =~= list);
        assert(seq![list[0]] + rest.insert(at - 1, height) =~= list.insert(at, height));
    }
}

fn insert_height(list: &mut Vec<u32>, height: u32)
    ensures
        final(list)@ == inserted(old(list)@, height),
{
    let mut at: usize = 0;
    while at < list.len() && list[at] > height
        invariant
            list@ == old(list)@,
            at <= list@.len(),
            forall|k: int| 0 <= k < at ==> #[trigger] list@[k] > height,
        decreases list@.len() - at,
    {
        at += 1;
    }
    proof {
        lemma_inserted_at(list@, height, at as int);
    }
    if at < list.len() && list[at] == height {
        return ;
    }
    list.insert(at, height);
}

fn format_height(format: &Json) -> (height: Option<u32>)
    ensures
        height == height_of(json_view(*format)),
{
    let codec = match format.get("vcodec") {
        Some(Json::Str(codec)) => codec,
        _ => return None,
    };
    let number = match format.get("height") {
        Some(Json::Number(number)) => number,
        _ => return None,
    };
    match number.unsigned {
        Some(height) => if !same_text(codec.as_str(), "none") && 0 < height && height
            <= u32::MAX as u64 {
            Some(height as u32)
        } else {
            None
        },
        None => None,
    }
}

/// The heights in which a document is offered, the highest first and each once.
pub fn extract_resolutions(value: &Json) -> (heights: Vec<u32>)
    ensures
        heights@ == resolutions_of(json_view(*value)),
        is_falling(heights@),
        forall|h: u32| #[trigger] heights@.contains(h) <==> is_offered(json_view(*value), h),
{
    let mut heights: Vec<u32> = Vec::new();
    proof {
        law_resolutions_unique_and_falling(json_view(*value));
    }
    let formats = match value.get("formats") {
        Some(formats) => formats,
        None => return heights,
    };
    let items = match formats.as_array() {
        Some(items) => items,
        None => return heights,
    };
    let ghost all = elements(Some(json_view(*formats)))->0;
    let mut i: usize = 0;
    while i < items.len()
        invariant
            i <= items@.len(),
            all.len() == items@.len(),
            forall|k: int| 0 <= k < all.len() ==> #[trigger] all[k] == json_view(items@[k]),
            heights@ == heights_of(all.take(i as int)),
        decreases items@.len() - i,
    {
        assert(all[i as int] == json_view(items@[i as int]));
        assert(all.take(i + 1).drop_last() =~= all.take(i as int));
        if let Some(height) = format_height(&items[i]) {
            insert_height(&mut heights, height);
        }
        i += 1;
    }
    assert(all.take(i as int) =~= all);
    heights
}

/// The address of an entry: its page, else its file, else the address that was asked about.
pub open spec fn address_of(source_url: Seq<char>, json: JsonView) -> Seq<char> {
    match (string_member(json, "webpage_url"@), string_member(json, "url"@)) {
        (Some(url), _) => url,
        (None, Some(url)) => url,
        (None, None) => source_url,
    }
}

fn entry_address(source_url: &str, value: &Json) -> (url: String)
    ensures
        url@ == address_of(source_url@, json_view(*value)),
{
    match value_string(value, "webpage_url") {
        Some(url) => url,
        None => match value_string(value, "url") {
            Some(url) => url,
            None => source_url.to_string(),
        },
    }
}

/// The entry that an element of a playlist stands for, where it has an address.
pub open spec fn entry_of(source_url: Seq<char>, json: JsonView) -> Option<EntryView> {
    if trimmed(address_of(source_url, json)).len() == 0 {
        None
    } else {
        Some(
            EntryView {
                id: string_member(json, "id"@),
                title: string_member(json, "title"@),
                url: address_of(source_url, json),
                webpage_url: string_member(json, "webpage_url"@),
                duration: duration_of(json),
                kind: Some("yt-dlp"@),
                source: Some("extractor"@),
                resolutions: resolutions_of(json),
            },
        )
    }
}

/// The entry that an element of a playlist stands for, where it has an address.
pub fn parse_entry(source_url: &str, value: &Json) -> (entry: Option<ProbeEntry>)
    ensures
        match entry {
            Some(e) => entry_of(source_url@, json_view(*value)) == Some(e@),
            None => entry_of(source_url@, json_view(*value)) is None,
        },
{
    let url = entry_address(source_url, value);
    if trim(url.as_str()).as_str().is_empty() {
        return None;
    }
    Some(
        ProbeEntry {
            id: value_string(value, "id"),
            title: value_string(value, "title"),
            url,
            webpage_url: value_string(value, "webpage_url"),
            duration: duration_string(value),
            kind: Some("yt-dlp".to_string()),
            source: Some("extractor".to_string()),
            resolutions: extract_resolutions(value),
        },
    )
}

/// The entries that the elements of a playlist stand for.
pub open spec fn entries_of(source_url: Seq<char>, items: Seq<JsonView>) -> Seq<EntryView>
    decreases items.len(),
{
    if items.len() == 0 {
        seq![]
    } else {
        let before = entries_of(source_url, items.drop_last());
        match entry_of(source_url, items.last()) {
            Some(entry) => before.push(entry),
            None => before,
        }
    }
}

/// The entries of a playlist.
pub open spec fn playlist_entries(source_url: Seq<char>, json: JsonView) -> Seq<EntryView> {
    match elements(member(json, "entries"@)) {
        Some(items) => entries_of(source_url, items),
        None => seq![],
    }
}

/// What a report of yt-dlp tells: the entries of a playlist, else the one document itself.
pub open spec fn report(source_url: Seq<char>, json: JsonView) -> ResultView {
    let title = string_member(json, "title"@);
    let listed = playlist_entries(source_url, json);
    let url = address_of(source_url, json);
    ResultView {
        source_url,
        title,
        entries: if listed.len() > 0 {
            listed
        } else {
            seq![
                EntryView {
                    id: string_member(json, "id"@),
                    title,
                    url,
                    webpage_url: Some(url),
                    duration: duration_of(json),
                    kind: Some("yt-dlp"@),
                    source: Some("extractor"@),
                    resolutions: resolutions_of(json),
                },
            ]
        },
    }
}

/// What a report of yt-dlp tells: the entries of a playlist, else the one document itself.
pub fn parse_probe_result(source_url: &str, value: Json) -> (result: ProbeResult)
    ensures
        result@ == report(source_url@, json_view(value)),
        result.entries@.len() > 0,
{
    let title = value_string(&value, "title");
    let mut entries: Vec<ProbeEntry> = Vec::new();
    assert(entries_view(entries@) =~= Seq::<EntryView>::empty());
    if let Some(list) = value.get("entries") {
        if let Some(items) = list.as_array() {
            let ghost all = elements(Some(json_view(*list)))->0;
            let mut i: usize = 0;
            while i < items.len()
                invariant
                    i <= items@.len(),
                    all.len() == items@.len(),
                    forall|k: int| 0 <= k < all.len() ==> #[trigger] all[k] == json_view(items@[k]),
                    entries_view(entries@) == entries_of(source_url@, all.take(i as int)),
                decreases items@.len() - i,
            {
                assert(all[i as int] == json_view(items@[i as int]));
                assert(all.take(i + 1).drop_last() =~= all.take(i as int));
                if let Some(entry) = parse_entry(source_url, &items[i]) {
                    let ghost before = entries_view(entries@);
                    let ghost view = entry@;
                    entries.push(entry);
                    assert(entries_view(entries@) =~= before.push(view));
                }
                i += 1;
            }
            assert(all.take(i as int) =~= all);
        }
    }
    assert(entries_view(entries@).len() == entries@.len());
    assert(entries_view(entries@) == playlist_entries(source_url@, json_view(value)));
    if entries.len() == 0 {
        let url = entry_address(source_url, &value);
        let entry = ProbeEntry {
            id: value_string(&value, "id"),
            title: title.clone(),
            url: url.clone(),
            webpage_url: Some(url),
            duration: duration_string(&value),
            kind: Some("yt-dlp".to_string()),
            source: Some("extractor".to_string()),
            resolutions: extract_resolutions(&value),
        };
        let ghost view = entry@;
        entries.push(entry);
        assert(entries_view(entries@) =~= seq![view]);
    }
    ProbeResult { source_url: source_url.to_string(), title, entries }
}

/// The address that a user asks about, or what is wrong with it.
pub fn probe_target(url: &str) -> (target: Result<String, String>)
    ensures
        match target {
            Ok(text) => text@ == trimmed(url@) && trimmed(url@).len() > 0,
            Err(message) => trimmed(url@).len() == 0 && message@ == "Pegá una URL válida."@,
        },
{
    let url = trim(url);
    if url.as_str().is_empty() {
        Err("Pegá una URL válida.".to_string())
    } else {
        Ok(url)
    }
}

/// The arguments with which yt-dlp is asked about an address.
pub open spec fn probe_arguments(
    url: Seq<char>,
    node: Option<Seq<char>>,
    browser: Option<Seq<char>>,
) -> Seq<Seq<char>> {
    seq![
        "--dump-single-json"@,
        "--flat-playlist"@,
        "--no-color"@,
        "--ignore-config"@,
        "--socket-timeout"@,
        "30"@,
        "--retries"@,
        "3"@,
    ] + runtime_args(node) + browser_args(browser) + seq![url]
}

/// The arguments with which yt-dlp is asked about an address.
pub fn probe_args(url: &str, node: Option<&str>, browser: Option<&str>) -> (result: Result<
    Vec<String>,
    String,
>)
    ensures
        match browser_choice(browser.deep_view()) {
            Ok(name) => result matches Ok(args) && args.deep_view() == probe_arguments(
                url@,
                node.deep_view(),
                name,
            ),
            Err(_) => result matches Err(message) && message@ == unknown_browser_message(),
        },
{
    let mut args: Vec<String> = Vec::new();
    push_arg(&mut args, "--dump-single-json");
    push_arg(&mut args, "--flat-playlist");
    push_arg(&mut args, "--no-color");
    push_arg(&mut args, "--ignore-config");
    push_arg(&mut args, "--socket-timeout");
    push_arg(&mut args, "30");
    push_arg(&mut args, "--retries");
    push_arg(&mut args, "3");
    append_runtime_args(&mut args, node);
    match append_browser_args(&mut args, browser) {
        Ok(()) => {},
        Err(message) => return Err(message),
    }
    push_arg(&mut args, url);
    assert(args.deep_view() =~= probe_arguments(
        url@,
        node.deep_view(),
        browser_choice(browser.deep_view())->Ok_0,
    ));
    Ok(args)
}

/// What yt-dlp's answer comes to.
pub open spec fn reply(
    url: Seq<char>,
    success: bool,
    stdout: Seq<u8>,
    stderr: Seq<u8>,
) -> Result<ResultView, Seq<char>> {
    if !success {
        Err(error_or(lossy_text(stderr), "No pude extraer esa URL."@))
    } else {
        match json_of_text(lossy_text(stdout)) {
            Ok(json) => Ok(report(url, json)),
            Err(message) => Err("yt-dlp devolvió JSON inválido: "@ + message),
        }
    }
}

/// Reads the answer of yt-dlp to a question about `url`.
pub fn probe_reply(url: &str, success: bool, stdout: &[u8], stderr: &[u8]) -> (result: Result<
    ProbeResult,
    String,
>)
    ensures
        match result {
            Ok(found) => reply(url@, success, stdout@, stderr@) == Ok::<ResultView, Seq<char>>(
                found@,
            ),
            Err(message) => reply(url@, success, stdout@, stderr@) == Err::<ResultView, Seq<char>>(
                message@,
            ),
        },
{
    if !success {
        return Err(clean_process_error(stderr, "No pude extraer esa URL."));
    }
    match parse_json(decode_lossy(stdout).as_str()) {
        Ok(value) => Ok(parse_probe_result(url, value)),
        Err(error) => {
            let mut message = "yt-dlp devolvió JSON inválido: ".to_string();
            message.append(error.as_str());
            Err(message)
        },
    }
}

/// The format has pictures of that height: it names a video codec, whatever it is called but
/// `none`, and the height is a whole number above zero.
pub open spec fn shows_height(format: JsonView, height: int) -> bool {
    &&& member(format, "vcodec"@) matches Some(JsonView::Str(codec)) && codec != "none"@
    &&& member(format, "height"@) matches Some(JsonView::Number(number)) && number.unsigned
        matches Some(n) && n == height
    &&& 1 <= height <= 0xffff_ffff
}

/// The resolutions of a document are the heights of all its formats with pictures, whatever their
/// codecs are called, and no others; each stands once, the highest first.
pub proof fn law_resolutions(json: JsonView, formats: Seq<JsonView>, height: u32)
    requires
        member(json, "formats"@) == Some(JsonView::Array(formats)),
    ensures
        resolutions_of(json).contains(height) <==> exists|i: int|
            0 <= i < formats.len() && shows_height(#[trigger] formats[i], height as int),
        forall|i: int, j: int|
            0 <= i < j < resolutions_of(json).len() ==> resolutions_of(json)[i]
                > resolutions_of(json)[j],
{
    law_resolutions_unique_and_falling(json);
    if resolutions_of(json).contains(height) {
        assert(is_offered(json, height));
        let i = choose|i: int|
            0 <= i < formats.len() && height_of(#[trigger] formats[i]) == Some(height);
        assert(shows_height(formats[i], height as int));
    }
    if exists|i: int|
        0 <= i < formats.len() && shows_height(#[trigger] formats[i], height as int) {
        let i = choose|i: int|
            0 <= i < formats.len() && shows_height(#[trigger] formats[i], height as int);
        assert(height_of(formats[i]) == Some(height));
        assert(is_offered(json, height));
    }
}

/// A document without a list of formats offers no resolutions.
pub proof fn law_no_resolutions(json: JsonView)
    requires
        !(member(json, "formats"@) matches Some(JsonView::Array(_))),
    ensures
        resolutions_of(json).len() == 0,
{
}

/// The entry tells what the document tells: its id, its title, its duration and its resolutions,
/// and as its address that of its page, else that of its file, else the one that was asked for.
pub open spec fn describes(entry: EntryView, source_url: Seq<char>, json: JsonView) -> bool {
    &&& entry.id == string_member(json, "id"@)
    &&& entry.title == string_member(json, "title"@)
    &&& match string_member(json, "webpage_url"@) {
        Some(page) => entry.url == page,
        None => match string_member(json, "url"@) {
            Some(file) => entry.url == file,
            None => entry.url == source_url,
        },
    }
    &&& entry.duration == duration_of(json)
    &&& entry.kind == Some("yt-dlp"@)
    &&& entry.source == Some("extractor"@)
    &&& entry.resolutions == resolutions_of(json)
}

proof fn lemma_all_entries(source_url: Seq<char>, items: Seq<JsonView>)
    requires
        trimmed(source_url).len() > 0,
    ensures
        entries_of(source_url, items).len() == items.len(),
        forall|i: int|
            0 <= i < items.len() ==> {
                &&& describes(#[trigger] entries_of(source_url, items)[i], source_url, items[i])
                &&& entries_of(source_url, items)[i].webpage_url == string_member(
                    items[i],
                    "webpage_url"@,
                )
            },
    decreases items.len(),
{
    if items.len() > 0 {
        let before = items.drop_last();
        lemma_all_entries(source_url, before);
        let last = items.last();
        lemma_member_text(last, "webpage_url"@);
        lemma_member_text(last, "url"@);
        assert forall|i: int| 0 <= i < items.len() implies {
            &&& describes(#[trigger] entries_of(source_url, items)[i], source_url, items[i])
            &&& entries_of(source_url, items)[i].webpage_url == string_member(
                items[i],
                "webpage_url"@,
            )
        } by {
            if i < before.len() {
                assert(items[i] == before[i]);
                assert(entries_of(source_url, items)[i] == entries_of(source_url, before)[i]);
            }
        }
    }
}

proof fn lemma_member_text(json: JsonView, key: Seq<char>)
    ensures
        string_member(json, key) matches Some(text) ==> trimmed(text).len() > 0,
{
    if let Some(JsonView::Str(text)) = member(json, key) {
        law_trimming(text);
    }
}

/// A playlist gives an entry for each of its items, in their order, each as the item tells.
pub proof fn law_playlists(source_url: Seq<char>, json: JsonView, items: Seq<JsonView>)
    requires
        member(json, "entries"@) == Some(JsonView::Array(items)),
        items.len() > 0,
        trimmed(source_url).len() > 0,
    ensures
        ({
            let result = report(source_url, json);
            &&& result.source_url == source_url
            &&& result.title == string_member(json, "title"@)
            &&& result.entries.len() == items.len()
            &&& forall|i: int|
                0 <= i < items.len() ==> {
                    &&& describes(#[trigger] result.entries[i], source_url, items[i])
                    &&& result.entries[i].webpage_url == string_member(items[i], "webpage_url"@)
                }
        }),
{
    lemma_all_entries(source_url, items);
}

/// A document that lists nothing is itself the only entry.
pub proof fn law_single_videos(source_url: Seq<char>, json: JsonView)
    requires
        member(json, "entries"@) matches Some(JsonView::Array(items)) ==> items.len() == 0,
    ensures
        ({
            let result = report(source_url, json);
            &&& result.source_url == source_url
            &&& result.title == string_member(json, "title"@)
            &&& result.entries.len() == 1
            &&& describes(result.entries[0], source_url, json)
            &&& result.entries[0].webpage_url == Some(result.entries[0].url)
        }),
{
}

/// yt-dlp is asked for one document about the address, which comes last, without its own
/// configuration, with the given runtime and the given browser's cookies.
pub proof fn law_probe_arguments(url: Seq<char>, node: Seq<char>, browser: Seq<char>)
    ensures
        ({
            let bare = probe_arguments(url, None, None);
            let full = probe_arguments(url, Some(node), Some(browser));
            &&& bare.last() == url
            &&& full.last() == url
            &&& bare.contains("--dump-single-json"@) && full.contains("--dump-single-json"@)
            &&& bare.contains("--flat-playlist"@) && full.contains("--flat-playlist"@)
            &&& bare.contains("--no-color"@) && full.contains("--no-color"@)
            &&& bare.contains("--ignore-config"@) && full.contains("--ignore-config"@)
            &&& has_option(bare, "--socket-timeout"@, "30"@)
            &&& has_option(full, "--socket-timeout"@, "30"@)
            &&& has_option(bare, "--retries"@, "3"@)
            &&& has_option(full, "--retries"@, "3"@)
            &&& has_option(full, "--js-runtimes"@, "node:"@ + node)
            &&& has_option(full, "--cookies-from-browser"@, browser)
            &&& bare.len() == 9
            &&& full.len() == 13
        }),
{
    reveal(has_option);
    let bare = probe_arguments(url, None, None);
    let full = probe_arguments(url, Some(node), Some(browser));
    assert(bare[0] == "--dump-single-json"@ && full[0] == "--dump-single-json"@);
    assert(bare[1] == "--flat-playlist"@ && full[1] == "--flat-playlist"@);
    assert(bare[2] == "--no-color"@ && full[2] == "--no-color"@);
    assert(bare[3] == "--ignore-config"@ && full[3] == "--ignore-config"@);
    assert(bare[4] == "--socket-timeout"@ && full[4] == "--socket-timeout"@);
    assert(bare[5] == "30"@ && full[5] == "30"@);
    assert(bare[6] == "--retries"@ && full[6] == "--retries"@);
    assert(bare[7] == "3"@ && full[7] == "3"@);
    assert(full[8] == "--js-runtimes"@ && full[9] == "node:"@ + node);
    assert(full[10] == "--cookies-from-browser"@ && full[11] == browser);
}

/// A call that fails is answered with what yt-dlp wrote of the error, or with the standing message
/// where it wrote nothing; one that succeeds is answered with what the document reports, or with
/// what is wrong with it.
pub proof fn law_replies(url: Seq<char>, stdout: Seq<u8>, stderr: Seq<u8>)
    ensures
        trimmed(lossy_text(stderr)).len() > 0 ==> reply(url, false, stdout, stderr) == Err::<
            ResultView,
            Seq<char>,
        >(trimmed(lossy_text(stderr))),
        trimmed(lossy_text(stderr)).len() == 0 ==> reply(url, false, stdout, stderr) == Err::<
            ResultView,
            Seq<char>,
        >("No pude extraer esa URL."@),
        json_of_text(lossy_text(stdout)) matches Ok(json) ==> reply(url, true, stdout, stderr)
            == Ok::<ResultView, Seq<char>>(report(url, json)),
        json_of_text(lossy_text(stdout)) matches Err(reason) ==> reply(url, true, stdout, stderr)
            == Err::<ResultView, Seq<char>>("yt-dlp devolvió JSON inválido: "@ + reason),
{
}

/// No entry of a playlist is without an address.
pub proof fn law_entries_have_addresses(source_url: Seq<char>, json: JsonView, i: int)
    requires
        0 <= i < playlist_entries(source_url, json).len(),
    ensures
        trimmed(playlist_entries(source_url, json)[i].url).len() > 0,
{
    if let Some(items) = elements(member(json, "entries"@)) {
        lemma_entries_have_addresses(source_url, items);
    }
}

proof fn lemma_entries_have_addresses(source_url: Seq<char>, items: Seq<JsonView>)
    ensures
        forall|i: int|
            0 <= i < entries_of(source_url, items).len() ==> trimmed(
                (#[trigger] entries_of(source_url, items)[i]).url,
            ).len() > 0,
    decreases items.len(),
{
    if items.len() > 0 {
        lemma_entries_have_addresses(source_url, items.drop_last());
    }
}

/// A runtime and a browser are named in the call where they are given, each whether or not the
/// other is, and nothing is named where they are not.
pub proof fn law_probe_choices(
    url: Seq<char>,
    node: Option<Seq<char>>,
    browser: Option<Seq<char>>,
)
    ensures
        ({
            let args = probe_arguments(url, node, browser);
            &&& node matches Some(path) ==> has_option(args, "--js-runtimes"@, "node:"@ + path)
            &&& browser matches Some(name) ==> has_option(args, "--cookies-from-browser"@, name)
            &&& args.len() == 9 + (if node is Some {
                2int
            } else {
                0
            }) + (if browser is Some {
                2int
            } else {
                0
            })
            &&& args.last() == url
        }),
{
    reveal(has_option);
    let args = probe_arguments(url, node, browser);
    let at: int = if node is Some {
        10
    } else {
        8
    };
    if let Some(path) = node {
        assert(args[8] == "--js-runtimes"@ && args[9] == "node:"@ + path);
    }
    if let Some(name) = browser {
        assert(args[at] == "--cookies-from-browser"@ && args[at + 1] == name);
    }
}

} // verus!
