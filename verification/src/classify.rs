//! What a link most likely leads to, and whether its page is worth opening.

use vstd::prelude::*;

use crate::address::{url_of_text, url_view, PageUrl, UrlView};
use crate::probe::{EntryView, ProbeEntry};
use crate::text::{
    contains, contains_any, ends_with, has_any, has_suffix, has_text, law_pieces_do_not_span,
    same_text,
};
use crate::unicode::{lowercase, to_lowercase};

verus! {

/// A path that ends in a point and one of the extensions.
pub open spec fn has_ending(path: Seq<char>, extensions: Seq<&str>) -> bool {
    exists|k: int| 0 <= k < extensions.len() && has_suffix(path, "."@ + #[trigger] extensions[k]@)
}

/// Whether the path ends in a point and one of the extensions.
pub fn has_extension(path: &str, extensions: &[&str]) -> (found: bool)
    ensures
        found == has_ending(path@, extensions@),
{
    let mut k: usize = 0;
    while k < extensions.len()
        invariant
            k <= extensions@.len(),
            forall|j: int|
                0 <= j < k ==> !has_suffix(path@, "."@ + #[trigger] extensions@[j]@),
        decreases extensions@.len() - k,
    {
        let mut ending = ".".to_string();
        ending.append(extensions[k]);
        if ends_with(path, ending.as_str()) {
            assert(has_suffix(path@, "."@ + extensions@[k as int]@));
            return true;
        }
        k += 1;
    }
    false
}

/// File name extensions of videos.
pub open spec fn video_extensions() -> Seq<&'static str> {
    seq!["mp4", "m4v", "webm", "mkv", "mov", "avi", "flv", "ts"]
}

/// File name extensions of sound.
pub open spec fn audio_extensions() -> Seq<&'static str> {
    seq!["mp3", "m4a", "aac", "ogg", "wav"]
}

/// File name extensions of archives, documents and programs.
pub open spec fn archive_extensions() -> Seq<&'static str> {
    seq![
        "zip",
        "rar",
        "7z",
        "tar",
        "gz",
        "pdf",
        "epub",
        "doc",
        "docx",
        "xls",
        "xlsx",
        "apk",
        "exe",
        "msi",
        "dmg",
        "iso",
    ]
}

/// File name extensions of subtitles.
pub open spec fn subtitle_extensions() -> Seq<&'static str> {
    seq!["srt", "vtt", "ass"]
}

/// Words in a label that promise a download.
pub open spec fn download_labels() -> Seq<&'static str> {
    seq![
        "descargar",
        "descarga",
        "download",
        "bajar",
        "servidor",
        "server",
        "opcion",
        "opci",
        "mirror",
    ]
}

/// Parts of an address that promise a download.
pub open spec fn download_marks() -> Seq<&'static str> {
    seq!["download", "descargar", "descarga", "server", "mirror", "/dl/", "dl="]
}

/// Parts of an address that promise a player.
pub open spec fn player_marks() -> Seq<&'static str> {
    seq!["/embed/", "embed-", "player", "stream", "video", "watch"]
}

/// Words in a label that promise a video.
pub open spec fn video_labels() -> Seq<&'static str> {
    seq!["ver online", "reproducir", "play", "trailer", "video", "stream"]
}

/// Words that make a page worth opening.
pub open spec fn follow_words() -> Seq<&'static str> {
    seq![
        "boton",
        "descarga",
        "descargar",
        "download",
        "bajar",
        "servidor",
        "server",
        "opcion",
        "opci",
        "mirror",
        "reproductor",
        "player",
        "embed",
        "stream",
        "watch",
    ]
}

fn is_video_path(path: &str) -> (found: bool)
    ensures
        found == has_ending(path@, video_extensions()),
{
    let list = ["mp4", "m4v", "webm", "mkv", "mov", "avi", "flv", "ts"];
    assert(list@ =~= video_extensions());
    has_extension(path, &list)
}

fn is_audio_path(path: &str) -> (found: bool)
    ensures
        found == has_ending(path@, audio_extensions()),
{
    let list = ["mp3", "m4a", "aac", "ogg", "wav"];
    assert(list@ =~= audio_extensions());
    has_extension(path, &list)
}

fn is_archive_path(path: &str) -> (found: bool)
    ensures
        found == has_ending(path@, archive_extensions()),
{
    let list = [
        "zip",
        "rar",
        "7z",
        "tar",
        "gz",
        "pdf",
        "epub",
        "doc",
        "docx",
        "xls",
        "xlsx",
        "apk",
        "exe",
        "msi",
        "dmg",
        "iso",
    ];
    assert(list@ =~= archive_extensions());
    has_extension(path, &list)
}

fn is_subtitle_path(path: &str) -> (found: bool)
    ensures
        found == has_ending(path@, subtitle_extensions()),
{
    let list = ["srt", "vtt", "ass"];
    assert(list@ =~= subtitle_extensions());
    has_extension(path, &list)
}

/// A label or an address, both in small letters, that promises a download.
pub open spec fn promises_download(raw: Seq<char>, label: Seq<char>) -> bool {
    has_any(label, download_labels()) || has_any(raw, download_marks())
}

fn is_download_promised(raw: &str, label: &str) -> (found: bool)
    ensures
        found == promises_download(raw@, label@),
{
    let labels = [
        "descargar",
        "descarga",
        "download",
        "bajar",
        "servidor",
        "server",
        "opcion",
        "opci",
        "mirror",
    ];
    assert(labels@ =~= download_labels());
    let marks = ["download", "descargar", "descarga", "server", "mirror", "/dl/", "dl="];
    assert(marks@ =~= download_marks());
    contains_any(label, &labels) || contains_any(raw, &marks)
}

fn is_player_marked(raw: &str) -> (found: bool)
    ensures
        found == has_any(raw@, player_marks()),
{
    let marks = ["/embed/", "embed-", "player", "stream", "video", "watch"];
    assert(marks@ =~= player_marks());
    contains_any(raw, &marks)
}

fn is_video_labelled(label: &str) -> (found: bool)
    ensures
        found == has_any(label@, video_labels()),
{
    let labels = ["ver online", "reproducir", "play", "trailer", "video", "stream"];
    assert(labels@ =~= video_labels());
    contains_any(label, &labels)
}

/// What a file behind an address is, and how good a find it is, given the address and its path in
/// small letters.
pub open spec fn file_kind(raw: Seq<char>, path: Seq<char>) -> Option<(Seq<char>, i32)> {
    if has_text(raw, ".m3u8"@) {
        Some(("HLS playlist"@, 120))
    } else if has_text(raw, ".mpd"@) {
        Some(("DASH manifest"@, 115))
    } else if has_ending(path, video_extensions()) {
        Some(("video"@, 110))
    } else if has_ending(path, audio_extensions()) {
        Some(("audio"@, 90))
    } else if has_ending(path, archive_extensions()) {
        Some(("archivo"@, 88))
    } else if has_ending(path, subtitle_extensions()) {
        Some(("subtitulo"@, 55))
    } else {
        None
    }
}

/// A tag of something to press.
pub open spec fn is_button_tag(tag: Seq<char>) -> bool {
    tag == "button"@ || tag == "form"@ || tag == "input"@
}

/// A tag of something to see or hear.
pub open spec fn is_media_tag(tag: Seq<char>) -> bool {
    tag == "video"@ || tag == "source"@ || tag == "audio"@
}

/// A tag of a page in the page.
pub open spec fn is_frame_tag(tag: Seq<char>) -> bool {
    tag == "iframe"@ || tag == "embed"@
}

/// What a link that is no file most likely leads to, given its address and label in small letters
/// and the tag it stands in.
pub open spec fn page_kind(raw: Seq<char>, tag: Seq<char>, label: Seq<char>) -> Option<
    (Seq<char>, i32),
> {
    if promises_download(raw, label) {
        if is_button_tag(tag) {
            Some(("boton descarga"@, 84))
        } else {
            Some(("link descarga"@, 84))
        }
    } else if is_media_tag(tag) {
        Some(("media source"@, 95))
    } else if is_frame_tag(tag) {
        Some(("reproductor"@, 85))
    } else if has_any(raw, player_marks()) {
        Some(("posible reproductor"@, 70))
    } else if has_any(label, video_labels()) {
        Some(("link video"@, 45))
    } else {
        None
    }
}

/// What a link most likely leads to, and how good a find it is, given its address, path and label
/// in small letters and the tag it stands in.
pub open spec fn kind_of(
    raw: Seq<char>,
    path: Seq<char>,
    tag: Seq<char>,
    label: Seq<char>,
) -> Option<(Seq<char>, i32)> {
    match file_kind(raw, path) {
        Some(kind) => Some(kind),
        None => page_kind(raw, tag, label),
    }
}

/// A kind and a score that may be missing, as what they say.
pub open spec fn kind_view(kind: Option<(String, i32)>) -> Option<(Seq<char>, i32)> {
    match kind {
        Some((name, score)) => Some((name@, score)),
        None => None,
    }
}

fn classify_file(raw: &str, path: &str) -> (kind: Option<(String, i32)>)
    ensures
        kind_view(kind) == file_kind(raw@, path@),
{
    if contains(raw, ".m3u8") {
        return Some(("HLS playlist".to_string(), 120));
    }
    if contains(raw, ".mpd") {
        return Some(("DASH manifest".to_string(), 115));
    }
    if is_video_path(path) {
        return Some(("video".to_string(), 110));
    }
    if is_audio_path(path) {
        return Some(("audio".to_string(), 90));
    }
    if is_archive_path(path) {
        return Some(("archivo".to_string(), 88));
    }
    if is_subtitle_path(path) {
        return Some(("subtitulo".to_string(), 55));
    }
    None
}

fn classify_page(raw: &str, source_tag: &str, label: &str) -> (kind: Option<(String, i32)>)
    ensures
        kind_view(kind) == page_kind(raw@, source_tag@, label@),
{
    if is_download_promised(raw, label) {
        if same_text(source_tag, "button") || same_text(source_tag, "form") || same_text(
            source_tag,
            "input",
        ) {
            return Some(("boton descarga".to_string(), 84));
        }
        return Some(("link descarga".to_string(), 84));
    }
    if same_text(source_tag, "video") || same_text(source_tag, "source") || same_text(
        source_tag,
        "audio",
    ) {
        return Some(("media source".to_string(), 95));
    }
    if same_text(source_tag, "iframe") || same_text(source_tag, "embed") {
        return Some(("reproductor".to_string(), 85));
    }
    if is_player_marked(raw) {
        return Some(("posible reproductor".to_string(), 70));
    }
    if is_video_labelled(label) {
        return Some(("link video".to_string(), 45));
    }
    None
}

/// What a link most likely leads to, and how good a find it is, given its address, path and label
/// in small letters and the tag it stands in.
pub fn classify_lowered(raw: &str, path: &str, source_tag: &str, label: &str) -> (kind: Option<
    (String, i32),
>)
    ensures
        kind_view(kind) == kind_of(raw@, path@, source_tag@, label@),
{
    match classify_file(raw, path) {
        Some(kind) => Some(kind),
        None => classify_page(raw, source_tag, label),
    }
}

/// What a link most likely leads to, and how good a find it is.
pub open spec fn classified(url: UrlView, tag: Seq<char>, label: Seq<char>) -> Option<
    (Seq<char>, i32),
> {
    kind_of(lowercase(url.href), lowercase(url.path), tag, lowercase(label))
}

/// What a link most likely leads to, and how good a find it is.
pub fn classify_candidate(url: &PageUrl, source_tag: &str, label: &str) -> (kind: Option<
    (String, i32),
>)
    ensures
        kind_view(kind) == classified(url@, source_tag@, label@),
{
    let raw = to_lowercase(url.href());
    let path = to_lowercase(url.path());
    let label = to_lowercase(label);
    classify_lowered(raw.as_str(), path.as_str(), source_tag, label.as_str())
}

/// An address of a file, given the address and its path in small letters.
pub open spec fn is_file(raw: Seq<char>, path: Seq<char>) -> bool {
    ||| has_text(raw, ".m3u8"@)
    ||| has_text(raw, ".mpd"@)
    ||| has_ending(path, video_extensions())
    ||| has_ending(path, audio_extensions())
    ||| has_ending(path, subtitle_extensions())
    ||| has_ending(path, archive_extensions())
}

/// An address of a file.
pub open spec fn is_direct_file(url: UrlView) -> bool {
    is_file(lowercase(url.href), lowercase(url.path))
}

/// Whether an address is that of a file, given the address and its path in small letters.
pub fn is_file_lowered(raw: &str, path: &str) -> (found: bool)
    ensures
        found == is_file(raw@, path@),
{
    contains(raw, ".m3u8") || contains(raw, ".mpd") || is_video_path(path) || is_audio_path(path)
        || is_subtitle_path(path) || is_archive_path(path)
}

/// Whether an address is that of a file.
pub fn is_direct_file_url(url: &PageUrl) -> (found: bool)
    ensures
        found == is_direct_file(url@),
{
    let raw = to_lowercase(url.href());
    let path = to_lowercase(url.path());
    is_file_lowered(raw.as_str(), path.as_str())
}

/// The scores of files. Every other find has another score.
pub open spec fn is_file_score(score: i32) -> bool {
    score == 120 || score == 115 || score == 110 || score == 90 || score == 88 || score == 55
}

/// An address of a file is always classified, as a file; and what is classified as a file is one.
pub proof fn law_files_are_classified(url: UrlView, tag: Seq<char>, label: Seq<char>)
    ensures
        is_direct_file(url) <==> (classified(url, tag, label) matches Some((_, score))
            && is_file_score(score)),
{
}

/// Every find has a score from 45 to 120, and playlists and manifests come before all others.
pub proof fn law_scores(url: UrlView, tag: Seq<char>, label: Seq<char>)
    ensures
        classified(url, tag, label) matches Some((_, score)) ==> {
            &&& 45 <= score <= 120
            &&& has_text(lowercase(url.href), ".m3u8"@) <==> score == 120
            &&& score > 110 ==> has_text(lowercase(url.href), ".m3u8"@) || has_text(
                lowercase(url.href),
                ".mpd"@,
            )
        },
{
}

/// The text of `value` where there is one.
pub open spec fn or_empty(value: Option<Seq<char>>) -> Seq<char> {
    match value {
        Some(text) => text,
        None => seq![],
    }
}

/// The page of an entry, else its file.
pub open spec fn target_of(entry: EntryView) -> Seq<char> {
    match entry.webpage_url {
        Some(url) => url,
        None => entry.url,
    }
}

/// A page is worth opening for its title, kind or address, all in small letters.
pub open spec fn is_worth_opening(title: Seq<char>, kind: Seq<char>, raw: Seq<char>) -> bool {
    has_any(title + " "@ + kind + " "@ + raw, follow_words())
}

/// Whether a page is worth opening for its title, kind or address, all in small letters.
pub fn is_page_worth_opening(title: &str, kind: &str, raw: &str) -> (found: bool)
    ensures
        found == is_worth_opening(title@, kind@, raw@),
{
    let list = [
        "boton",
        "descarga",
        "descargar",
        "download",
        "bajar",
        "servidor",
        "server",
        "opcion",
        "opci",
        "mirror",
        "reproductor",
        "player",
        "embed",
        "stream",
        "watch",
    ];
    assert(list@ =~= follow_words());
    let mut text = title.to_string();
    text.append(" ");
    text.append(kind);
    text.append(" ");
    text.append(raw);
    contains_any(text.as_str(), &list)
}

/// The page at `target` is to be opened for an entry found on the page at `source`.
pub open spec fn is_followed(entry: EntryView, source: Seq<char>, target: UrlView) -> bool {
    &&& target.href != source
    &&& !is_direct_file(target)
    &&& is_worth_opening(
        lowercase(or_empty(entry.title)),
        lowercase(or_empty(entry.kind)),
        lowercase(target.href),
    )
}

/// The page that is to be opened for an entry found on the page at `source`, if any.
pub open spec fn followed(entry: EntryView, source: Seq<char>) -> Option<UrlView> {
    match url_of_text(target_of(entry)) {
        Ok(target) => if is_followed(entry, source, target) {
            Some(target)
        } else {
            None
        },
        Err(_) => None,
    }
}

fn text_or_empty(value: &Option<String>) -> (text: &str)
    ensures
        text@ == or_empty(value.deep_view()),
{
    match value {
        Some(text) => text.as_str(),
        None => {
            proof {
                reveal_strlit("");
                assert(""@ =~= Seq::<char>::empty());
            }
            ""
        },
    }
}

/// Whether the page at `target` is to be opened for an entry found on the page at `source`.
pub fn is_target_followed(entry: &ProbeEntry, source: &str, target: &PageUrl) -> (found: bool)
    ensures
        found == is_followed(entry@, source@, target@),
{
    if same_text(target.href(), source) || is_direct_file_url(target) {
        return false;
    }
    let title = to_lowercase(text_or_empty(&entry.title));
    let kind = to_lowercase(text_or_empty(&entry.kind));
    let raw = to_lowercase(target.href());
    is_page_worth_opening(title.as_str(), kind.as_str(), raw.as_str())
}

/// The page that is to be opened for an entry found on the page `source_url`, if any.
pub fn follow_target(entry: &ProbeEntry, source_url: &PageUrl) -> (target: Option<PageUrl>)
    ensures
        url_view(target) == followed(entry@, source_url@.href),
{
    let address = match &entry.webpage_url {
        Some(url) => url.as_str(),
        None => entry.url.as_str(),
    };
    match PageUrl::parse(address) {
        Ok(target) => if is_target_followed(entry, source_url.href(), &target) {
            Some(target)
        } else {
            None
        },
        Err(_) => None,
    }
}

/// Neither a file nor the page that is being scanned is ever opened.
pub proof fn law_files_and_source_are_not_followed(entry: EntryView, source: Seq<char>)
    ensures
        followed(entry, source) matches Some(target) ==> {
            &&& !is_direct_file(target)
            &&& target.href != source
            &&& url_of_text(target_of(entry)) == Ok::<UrlView, Seq<char>>(target)
        },
{
}

/// A path that ends like that of a video.
pub open spec fn ends_like_video(path: Seq<char>) -> bool {
    ||| has_suffix(path, ".mp4"@)
    ||| has_suffix(path, ".m4v"@)
    ||| has_suffix(path, ".webm"@)
    ||| has_suffix(path, ".mkv"@)
    ||| has_suffix(path, ".mov"@)
    ||| has_suffix(path, ".avi"@)
    ||| has_suffix(path, ".flv"@)
    ||| has_suffix(path, ".ts"@)
}

proof fn lemma_ends_like_video(path: Seq<char>)
    ensures
        has_ending(path, video_extensions()) == ends_like_video(path),
{
    reveal_strlit(".");
    reveal_strlit("mp4");
    reveal_strlit(".mp4");
    assert(".mp4"@ =~= "."@ + "mp4"@);
    assert(video_extensions()[0] == "mp4");
    reveal_strlit("m4v");
    reveal_strlit(".m4v");
    assert(".m4v"@ =~= "."@ + "m4v"@);
    assert(video_extensions()[1] == "m4v");
    reveal_strlit("webm");
    reveal_strlit(".webm");
    assert(".webm"@ =~= "."@ + "webm"@);
    assert(video_extensions()[2] == "webm");
    reveal_strlit("mkv");
    reveal_strlit(".mkv");
    assert(".mkv"@ =~= "."@ + "mkv"@);
    assert(video_extensions()[3] == "mkv");
    reveal_strlit("mov");
    reveal_strlit(".mov");
    assert(".mov"@ =~= "."@ + "mov"@);
    assert(video_extensions()[4] == "mov");
    reveal_strlit("avi");
    reveal_strlit(".avi");
    assert(".avi"@ =~= "."@ + "avi"@);
    assert(video_extensions()[5] == "avi");
    reveal_strlit("flv");
    reveal_strlit(".flv");
    assert(".flv"@ =~= "."@ + "flv"@);
    assert(video_extensions()[6] == "flv");
    reveal_strlit("ts");
    reveal_strlit(".ts");
    assert(".ts"@ =~= "."@ + "ts"@);
    assert(video_extensions()[7] == "ts");
    assert(video_extensions().len() == 8);
}

/// A path that ends like that of a sound file.
pub open spec fn ends_like_audio(path: Seq<char>) -> bool {
    ||| has_suffix(path, ".mp3"@)
    ||| has_suffix(path, ".m4a"@)
    ||| has_suffix(path, ".aac"@)
    ||| has_suffix(path, ".ogg"@)
    ||| has_suffix(path, ".wav"@)
}

proof fn lemma_ends_like_audio(path: Seq<char>)
    ensures
        has_ending(path, audio_extensions()) == ends_like_audio(path),
{
    reveal_strlit(".");
    reveal_strlit("mp3");
    reveal_strlit(".mp3");
    assert(".mp3"@ =~= "."@ + "mp3"@);
    assert(audio_extensions()[0] == "mp3");
    reveal_strlit("m4a");
    reveal_strlit(".m4a");
    assert(".m4a"@ =~= "."@ + "m4a"@);
    assert(audio_extensions()[1] == "m4a");
    reveal_strlit("aac");
    reveal_strlit(".aac");
    assert(".aac"@ =~= "."@ + "aac"@);
    assert(audio_extensions()[2] == "aac");
    reveal_strlit("ogg");
    reveal_strlit(".ogg");
    assert(".ogg"@ =~= "."@ + "ogg"@);
    assert(audio_extensions()[3] == "ogg");
    reveal_strlit("wav");
    reveal_strlit(".wav");
    assert(".wav"@ =~= "."@ + "wav"@);
    assert(audio_extensions()[4] == "wav");
    assert(audio_extensions().len() == 5);
}

/// A path that ends like that of an archive, a document or a program.
pub open spec fn ends_like_archive(path: Seq<char>) -> bool {
    ||| has_suffix(path, ".zip"@)
    ||| has_suffix(path, ".rar"@)
    ||| has_suffix(path, ".7z"@)
    ||| has_suffix(path, ".tar"@)
    ||| has_suffix(path, ".gz"@)
    ||| has_suffix(path, ".pdf"@)
    ||| has_suffix(path, ".epub"@)
    ||| has_suffix(path, ".doc"@)
    ||| has_suffix(path, ".docx"@)
    ||| has_suffix(path, ".xls"@)
    ||| has_suffix(path, ".xlsx"@)
    ||| has_suffix(path, ".apk"@)
    ||| has_suffix(path, ".exe"@)
    ||| has_suffix(path, ".msi"@)
    ||| has_suffix(path, ".dmg"@)
    ||| has_suffix(path, ".iso"@)
}

proof fn lemma_ends_like_archive(path: Seq<char>)
    ensures
        has_ending(path, archive_extensions()) == ends_like_archive(path),
{
    reveal_strlit(".");
    reveal_strlit("zip");
    reveal_strlit(".zip");
    assert(".zip"@ =~= "."@ + "zip"@);
    assert(archive_extensions()[0] == "zip");
    reveal_strlit("rar");
    reveal_strlit(".rar");
    assert(".rar"@ =~= "."@ + "rar"@);
    assert(archive_extensions()[1] == "rar");
    reveal_strlit("7z");
    reveal_strlit(".7z");
    assert(".7z"@ =~= "."@ + "7z"@);
    assert(archive_extensions()[2] == "7z");
    reveal_strlit("tar");
    reveal_strlit(".tar");
    assert(".tar"@ =~= "."@ + "tar"@);
    assert(archive_extensions()[3] == "tar");
    reveal_strlit("gz");
    reveal_strlit(".gz");
    assert(".gz"@ =~= "."@ + "gz"@);
    assert(archive_extensions()[4] == "gz");
    reveal_strlit("pdf");
    reveal_strlit(".pdf");
    assert(".pdf"@ =~= "."@ + "pdf"@);
    assert(archive_extensions()[5] == "pdf");
    reveal_strlit("epub");
    reveal_strlit(".epub");
    assert(".epub"@ =~= "."@ + "epub"@);
    assert(archive_extensions()[6] == "epub");
    reveal_strlit("doc");
    reveal_strlit(".doc");
    assert(".doc"@ =~= "."@ + "doc"@);
    assert(archive_extensions()[7] == "doc");
    reveal_strlit("docx");
    reveal_strlit(".docx");
    assert(".docx"@ =~= "."@ + "docx"@);
    assert(archive_extensions()[8] == "docx");
    reveal_strlit("xls");
    reveal_strlit(".xls");
    assert(".xls"@ =~= "."@ + "xls"@);
    assert(archive_extensions()[9] == "xls");
    reveal_strlit("xlsx");
    reveal_strlit(".xlsx");
    assert(".xlsx"@ =~= "."@ + "xlsx"@);
    assert(archive_extensions()[10] == "xlsx");
    reveal_strlit("apk");
    reveal_strlit(".apk");
    assert(".apk"@ =~= "."@ + "apk"@);
    assert(archive_extensions()[11] == "apk");
    reveal_strlit("exe");
    reveal_strlit(".exe");
    assert(".exe"@ =~= "."@ + "exe"@);
    assert(archive_extensions()[12] == "exe");
    reveal_strlit("msi");
    reveal_strlit(".msi");
    assert(".msi"@ =~= "."@ + "msi"@);
    assert(archive_extensions()[13] == "msi");
    reveal_strlit("dmg");
    reveal_strlit(".dmg");
    assert(".dmg"@ =~= "."@ + "dmg"@);
    assert(archive_extensions()[14] == "dmg");
    reveal_strlit("iso");
    reveal_strlit(".iso");
    assert(".iso"@ =~= "."@ + "iso"@);
    assert(archive_extensions()[15] == "iso");
    assert(archive_extensions().len() == 16);
}

/// A path that ends like that of subtitles.
pub open spec fn ends_like_subtitle(path: Seq<char>) -> bool {
    ||| has_suffix(path, ".srt"@)
    ||| has_suffix(path, ".vtt"@)
    ||| has_suffix(path, ".ass"@)
}

proof fn lemma_ends_like_subtitle(path: Seq<char>)
    ensures
        has_ending(path, subtitle_extensions()) == ends_like_subtitle(path),
{
    reveal_strlit(".");
    reveal_strlit("srt");
    reveal_strlit(".srt");
    assert(".srt"@ =~= "."@ + "srt"@);
    assert(subtitle_extensions()[0] == "srt");
    reveal_strlit("vtt");
    reveal_strlit(".vtt");
    assert(".vtt"@ =~= "."@ + "vtt"@);
    assert(subtitle_extensions()[1] == "vtt");
    reveal_strlit("ass");
    reveal_strlit(".ass");
    assert(".ass"@ =~= "."@ + "ass"@);
    assert(subtitle_extensions()[2] == "ass");
    assert(subtitle_extensions().len() == 3);
}

/// A label that promises a download.
pub open spec fn labels_download(text: Seq<char>) -> bool {
    ||| has_text(text, "descargar"@)
    ||| has_text(text, "descarga"@)
    ||| has_text(text, "download"@)
    ||| has_text(text, "bajar"@)
    ||| has_text(text, "servidor"@)
    ||| has_text(text, "server"@)
    ||| has_text(text, "opcion"@)
    ||| has_text(text, "opci"@)
    ||| has_text(text, "mirror"@)
}

proof fn lemma_labels_download(text: Seq<char>)
    ensures
        has_any(text, download_labels()) == labels_download(text),
{
    assert(download_labels()[0] == "descargar");
    assert(download_labels()[1] == "descarga");
    assert(download_labels()[2] == "download");
    assert(download_labels()[3] == "bajar");
    assert(download_labels()[4] == "servidor");
    assert(download_labels()[5] == "server");
    assert(download_labels()[6] == "opcion");
    assert(download_labels()[7] == "opci");
    assert(download_labels()[8] == "mirror");
    assert(download_labels().len() == 9);
}

/// An address that promises a download.
pub open spec fn marks_download(text: Seq<char>) -> bool {
    ||| has_text(text, "download"@)
    ||| has_text(text, "descargar"@)
    ||| has_text(text, "descarga"@)
    ||| has_text(text, "server"@)
    ||| has_text(text, "mirror"@)
    ||| has_text(text, "/dl/"@)
    ||| has_text(text, "dl="@)
}

proof fn lemma_marks_download(text: Seq<char>)
    ensures
        has_any(text, download_marks()) == marks_download(text),
{
    assert(download_marks()[0] == "download");
    assert(download_marks()[1] == "descargar");
    assert(download_marks()[2] == "descarga");
    assert(download_marks()[3] == "server");
    assert(download_marks()[4] == "mirror");
    assert(download_marks()[5] == "/dl/");
    assert(download_marks()[6] == "dl=");
    assert(download_marks().len() == 7);
}

/// An address that promises a player.
pub open spec fn marks_player(text: Seq<char>) -> bool {
    ||| has_text(text, "/embed/"@)
    ||| has_text(text, "embed-"@)
    ||| has_text(text, "player"@)
    ||| has_text(text, "stream"@)
    ||| has_text(text, "video"@)
    ||| has_text(text, "watch"@)
}

proof fn lemma_marks_player(text: Seq<char>)
    ensures
        has_any(text, player_marks()) == marks_player(text),
{
    assert(player_marks()[0] == "/embed/");
    assert(player_marks()[1] == "embed-");
    assert(player_marks()[2] == "player");
    assert(player_marks()[3] == "stream");
    assert(player_marks()[4] == "video");
    assert(player_marks()[5] == "watch");
    assert(player_marks().len() == 6);
}

/// A label that promises a video.
pub open spec fn labels_video(text: Seq<char>) -> bool {
    ||| has_text(text, "ver online"@)
    ||| has_text(text, "reproducir"@)
    ||| has_text(text, "play"@)
    ||| has_text(text, "trailer"@)
    ||| has_text(text, "video"@)
    ||| has_text(text, "stream"@)
}

proof fn lemma_labels_video(text: Seq<char>)
    ensures
        has_any(text, video_labels()) == labels_video(text),
{
    assert(video_labels()[0] == "ver online");
    assert(video_labels()[1] == "reproducir");
    assert(video_labels()[2] == "play");
    assert(video_labels()[3] == "trailer");
    assert(video_labels()[4] == "video");
    assert(video_labels()[5] == "stream");
    assert(video_labels().len() == 6);
}

/// A text that makes a page worth opening.
pub open spec fn invites_opening(text: Seq<char>) -> bool {
    ||| has_text(text, "boton"@)
    ||| has_text(text, "descarga"@)
    ||| has_text(text, "descargar"@)
    ||| has_text(text, "download"@)
    ||| has_text(text, "bajar"@)
    ||| has_text(text, "servidor"@)
    ||| has_text(text, "server"@)
    ||| has_text(text, "opcion"@)
    ||| has_text(text, "opci"@)
    ||| has_text(text, "mirror"@)
    ||| has_text(text, "reproductor"@)
    ||| has_text(text, "player"@)
    ||| has_text(text, "embed"@)
    ||| has_text(text, "stream"@)
    ||| has_text(text, "watch"@)
}

proof fn lemma_invites_opening(text: Seq<char>)
    ensures
        has_any(text, follow_words()) == invites_opening(text),
{
    assert(follow_words()[0] == "boton");
    assert(follow_words()[1] == "descarga");
    assert(follow_words()[2] == "descargar");
    assert(follow_words()[3] == "download");
    assert(follow_words()[4] == "bajar");
    assert(follow_words()[5] == "servidor");
    assert(follow_words()[6] == "server");
    assert(follow_words()[7] == "opcion");
    assert(follow_words()[8] == "opci");
    assert(follow_words()[9] == "mirror");
    assert(follow_words()[10] == "reproductor");
    assert(follow_words()[11] == "player");
    assert(follow_words()[12] == "embed");
    assert(follow_words()[13] == "stream");
    assert(follow_words()[14] == "watch");
    assert(follow_words().len() == 15);
}

/// What an address is said to lead to.
pub open spec fn is_classified_as(
    url: UrlView,
    tag: Seq<char>,
    label: Seq<char>,
    kind: Seq<char>,
    score: int,
) -> bool {
    classified(url, tag, label) matches Some((name, points)) && name == kind && points == score
}

/// A playlist or a manifest is known by its name anywhere in the address, and a file by the end of
/// its path, whatever element and label the link has, and however the letters are written.
pub proof fn law_kinds_of_files(url: UrlView, tag: Seq<char>, label: Seq<char>)
    ensures
        ({
            let raw = lowercase(url.href);
            let path = lowercase(url.path);
            let listed = has_text(raw, ".m3u8"@) || has_text(raw, ".mpd"@);
            &&& has_text(raw, ".m3u8"@) ==> is_classified_as(url, tag, label, "HLS playlist"@, 120)
            &&& has_text(raw, ".mpd"@) && !has_text(raw, ".m3u8"@) ==> is_classified_as(
                url,
                tag,
                label,
                "DASH manifest"@,
                115,
            )
            &&& !listed && ends_like_video(path) ==> is_classified_as(url, tag, label, "video"@, 110)
            &&& !listed && ends_like_audio(path) && !ends_like_video(path) ==> is_classified_as(
                url,
                tag,
                label,
                "audio"@,
                90,
            )
            &&& !listed && ends_like_archive(path) && !ends_like_video(path) && !ends_like_audio(path)
                ==> is_classified_as(url, tag, label, "archivo"@, 88)
            &&& !listed && ends_like_subtitle(path) && !ends_like_archive(path) && !ends_like_video(path)
                && !ends_like_audio(path) ==> is_classified_as(url, tag, label, "subtitulo"@, 55)
            &&& is_direct_file(url) == (listed || ends_like_video(path) || ends_like_audio(path)
                || ends_like_archive(path) || ends_like_subtitle(path))
        }),
{
    let path = lowercase(url.path);
    lemma_ends_like_video(path);
    lemma_ends_like_audio(path);
    lemma_ends_like_archive(path);
    lemma_ends_like_subtitle(path);
}

/// A link to no file is a download where its label or its address promises one, of a button where
/// it stands on one; else what a media element plays, a player in a frame, a possible player by its
/// address, or a video by its label; and else it is nothing.
pub proof fn law_kinds_of_pages(url: UrlView, tag: Seq<char>, label: Seq<char>)
    requires
        !is_direct_file(url),
    ensures
        ({
            let raw = lowercase(url.href);
            let promised = labels_download(lowercase(label)) || marks_download(raw);
            let button = tag == "button"@ || tag == "form"@ || tag == "input"@;
            let media = tag == "video"@ || tag == "source"@ || tag == "audio"@;
            let frame = tag == "iframe"@ || tag == "embed"@;
            &&& promised && button ==> is_classified_as(url, tag, label, "boton descarga"@, 84)
            &&& promised && !button ==> is_classified_as(url, tag, label, "link descarga"@, 84)
            &&& !promised && media ==> is_classified_as(url, tag, label, "media source"@, 95)
            &&& !promised && frame ==> is_classified_as(url, tag, label, "reproductor"@, 85)
            &&& !promised && !media && !frame && marks_player(raw) ==> is_classified_as(
                url,
                tag,
                label,
                "posible reproductor"@,
                70,
            )
            &&& !promised && !media && !frame && !marks_player(raw) && labels_video(
                lowercase(label),
            ) ==> is_classified_as(url, tag, label, "link video"@, 45)
            &&& !promised && !media && !frame && !marks_player(raw) && !labels_video(
                lowercase(label),
            ) ==> classified(url, tag, label) is None
        }),
{
    let raw = lowercase(url.href);
    lemma_labels_download(lowercase(label));
    lemma_marks_download(raw);
    lemma_marks_player(raw);
    lemma_labels_video(lowercase(label));
    reveal_strlit("video");
    reveal_strlit("source");
    reveal_strlit("audio");
    reveal_strlit("iframe");
    reveal_strlit("embed");
    assert("iframe"@.len() == 6 && "embed"@.len() == 5 && "video"@.len() == 5);
    assert("iframe"@[0] == 'i' && "source"@[0] == 's');
    assert("embed"@[0] == 'e' && "video"@[0] == 'v' && "audio"@[0] == 'a');
}

proof fn lemma_word_in_three(first: Seq<char>, second: Seq<char>, third: Seq<char>, word: Seq<char>)
    requires
        !word.contains(' '),
    ensures
        has_text(first + " "@ + second + " "@ + third, word) == (has_text(first, word) || has_text(
            second,
            word,
        ) || has_text(third, word)),
{
    reveal_strlit(" ");
    assert(" "@ =~= seq![' ']);
    law_pieces_do_not_span(first, ' ', second, word);
    law_pieces_do_not_span(first + " "@ + second, ' ', third, word);
}

/// A page is opened where one of the inviting words stands in the title of its entry, in its kind
/// or in its address, each taken alone and in small letters; unless the page is a file, or the page
/// that is being scanned.
pub proof fn law_pages_are_opened(entry: EntryView, source: Seq<char>, target: UrlView)
    requires
        url_of_text(
            match entry.webpage_url {
                Some(page) => page,
                None => entry.url,
            },
        ) == Ok::<UrlView, Seq<char>>(target),
    ensures
        ({
            let invited = {
                ||| entry.title matches Some(title) && invites_opening(lowercase(title))
                ||| entry.kind matches Some(kind) && invites_opening(lowercase(kind))
                ||| invites_opening(lowercase(target.href))
            };
            &&& target.href == source ==> followed(entry, source) is None
            &&& is_direct_file(target) ==> followed(entry, source) is None
            &&& target.href != source && !is_direct_file(target) && invited ==> followed(
                entry,
                source,
            ) == Some(target)
            &&& entry.title is Some && entry.kind is Some && !invited ==> followed(
                entry,
                source,
            ) is None
        }),
{
    let title = lowercase(or_empty(entry.title));
    let kind = lowercase(or_empty(entry.kind));
    let raw = lowercase(target.href);
    lemma_invites_opening(title + " "@ + kind + " "@ + raw);
    reveal_strlit("boton");
    assert(!"boton"@.contains(' '));
    lemma_word_in_three(title, kind, raw, "boton"@);
    reveal_strlit("descarga");
    assert(!"descarga"@.contains(' '));
    lemma_word_in_three(title, kind, raw, "descarga"@);
    reveal_strlit("descargar");
    assert(!"descargar"@.contains(' '));
    lemma_word_in_three(title, kind, raw, "descargar"@);
    reveal_strlit("download");
    assert(!"download"@.contains(' '));
    lemma_word_in_three(title, kind, raw, "download"@);
    reveal_strlit("bajar");
    assert(!"bajar"@.contains(' '));
    lemma_word_in_three(title, kind, raw, "bajar"@);
    reveal_strlit("servidor");
    assert(!"servidor"@.contains(' '));
    lemma_word_in_three(title, kind, raw, "servidor"@);
    reveal_strlit("server");
    assert(!"server"@.contains(' '));
    lemma_word_in_three(title, kind, raw, "server"@);
    reveal_strlit("opcion");
    assert(!"opcion"@.contains(' '));
    lemma_word_in_three(title, kind, raw, "opcion"@);
    reveal_strlit("opci");
    assert(!"opci"@.contains(' '));
    lemma_word_in_three(title, kind, raw, "opci"@);
    reveal_strlit("mirror");
    assert(!"mirror"@.contains(' '));
    lemma_word_in_three(title, kind, raw, "mirror"@);
    reveal_strlit("reproductor");
    assert(!"reproductor"@.contains(' '));
    lemma_word_in_three(title, kind, raw, "reproductor"@);
    reveal_strlit("player");
    assert(!"player"@.contains(' '));
    lemma_word_in_three(title, kind, raw, "player"@);
    reveal_strlit("embed");
    assert(!"embed"@.contains(' '));
    lemma_word_in_three(title, kind, raw, "embed"@);
    reveal_strlit("stream");
    assert(!"stream"@.contains(' '));
    lemma_word_in_three(title, kind, raw, "stream"@);
    reveal_strlit("watch");
    assert(!"watch"@.contains(' '));
    lemma_word_in_three(title, kind, raw, "watch"@);
}

/// An entry whose address cannot be read is not opened.
pub proof fn law_unreadable_addresses(entry: EntryView, source: Seq<char>)
    requires
        url_of_text(
            match entry.webpage_url {
                Some(page) => page,
                None => entry.url,
            },
        ) is Err,
    ensures
        followed(entry, source) is None,
{
}

/// An entry without a title or a kind is judged as one whose title or kind is empty.
pub proof fn law_missing_texts(entry: EntryView, source: Seq<char>)
    ensures
        entry.title is None ==> followed(entry, source) == followed(
            EntryView { title: Some(seq![]), ..entry },
            source,
        ),
        entry.kind is None ==> followed(entry, source) == followed(
            EntryView { kind: Some(seq![]), ..entry },
            source,
        ),
{
}

} // verus!
