//! What yt-dlp's output lines tell of a running download.

use vstd::prelude::*;

use crate::decimal_text::{is_float, is_float_text};
use crate::text::{
    chars_of, contains, find, first_at, has_prefix, has_text, is_blank, is_white, is_word,
    law_pieces_are_found, law_search, law_stripping_keeps_the_core, law_trimming_keeps_the_core,
    law_words, lemma_first_at, occurs_at, split_whitespace, starts_with, strip_prefix, text_of,
    trim, trim_matches, trimmed, trimmed_of, words,
};

verus! {

/// News of a download. The progress is a number of percent, as text.
#[derive(Debug)]
pub struct DownloadUpdate {
    pub id: String,
    pub status: String,
    pub progress: Option<String>,
    pub speed: Option<String>,
    pub eta: Option<String>,
    pub file: Option<String>,
    pub message: Option<String>,
}

/// News of a download.
#[verifier::ext_equal]
pub struct UpdateView {
    pub id: Seq<char>,
    pub status: Seq<char>,
    pub progress: Option<Seq<char>>,
    pub speed: Option<Seq<char>>,
    pub eta: Option<Seq<char>>,
    pub file: Option<Seq<char>>,
    pub message: Option<Seq<char>>,
}

impl View for DownloadUpdate {
    type V = UpdateView;

    open spec fn view(&self) -> UpdateView {
        UpdateView {
            id: self.id@,
            status: self.status@,
            progress: self.progress.deep_view(),
            speed: self.speed.deep_view(),
            eta: self.eta.deep_view(),
            file: self.file.deep_view(),
            message: self.message.deep_view(),
        }
    }
}

/// News without figures: a status, what file it is about, and a message.
pub open spec fn news(
    id: Seq<char>,
    status: Seq<char>,
    progress: Option<Seq<char>>,
    file: Option<Seq<char>>,
    message: Option<Seq<char>>,
) -> UpdateView {
    UpdateView { id, status, progress, speed: None, eta: None, file, message }
}

/// News without figures: a status, what file it is about, and a message.
pub fn make_news(
    id: &str,
    status: &str,
    progress: Option<&str>,
    file: Option<String>,
    message: Option<&str>,
) -> (update: DownloadUpdate)
    ensures
        update@ == news(
            id@,
            status@,
            progress.deep_view(),
            file.deep_view(),
            message.deep_view(),
        ),
{
    DownloadUpdate {
        id: id.to_string(),
        status: status.to_string(),
        progress: match progress {
            Some(text) => Some(text.to_string()),
            None => None,
        },
        speed: None,
        eta: None,
        file,
        message: match message {
            Some(text) => Some(text.to_string()),
            None => None,
        },
    }
}

/// The percentage in a line: the word before the first percent sign, where it is a number.
pub open spec fn percent_in(line: Seq<char>) -> Option<Seq<char>> {
    match first_at(line, "%"@) {
        Some(i) => {
            let before = words(line.take(i));
            if before.len() > 0 && is_float(before.last()) {
                Some(before.last())
            } else {
                None
            }
        },
        None => None,
    }
}

/// The percentage in a line: the word before the first percent sign, where it is a number.
pub fn parse_percent(line: &str) -> (percent: Option<String>)
    ensures
        percent.deep_view() == percent_in(line@),
{
    match find(line, "%") {
        Some(i) => {
            proof {
                lemma_first_at(line@, "%"@);
            }
            let before = text_of(&chars_of(line), 0, i);
            assert(before@ =~= line@.take(i as int));
            let mut parts = split_whitespace(before.as_str());
            let ghost all = parts.deep_view();
            assert(all.len() == parts@.len());
            match parts.pop() {
                Some(token) => {
                    assert(token@ == all.last());
                    if is_float_text(token.as_str()) {
                        Some(token)
                    } else {
                        None
                    }
                },
                None => None,
            }
        },
        None => None,
    }
}

/// `text`, unless it is empty.
pub open spec fn unless_empty(text: Seq<char>) -> Option<Seq<char>> {
    if text.len() == 0 {
        None
    } else {
        Some(text)
    }
}

fn some_unless_empty(text: String) -> (result: Option<String>)
    ensures
        result.deep_view() == unless_empty(text@),
{
    if text.as_str().is_empty() {
        None
    } else {
        Some(text)
    }
}

/// The speed and the remaining time in a line, which stand behind the words "at" and "ETA".
pub open spec fn speed_eta_in(line: Seq<char>) -> (Option<Seq<char>>, Option<Seq<char>>) {
    match first_at(line, " at "@) {
        Some(i) => {
            let rest = line.skip(i + 4);
            match first_at(rest, " ETA "@) {
                Some(k) => (
                    unless_empty(trimmed(rest.take(k))),
                    unless_empty(trimmed(rest.skip(k + 5))),
                ),
                None => (Some(trimmed(rest)), None),
            }
        },
        None => (None, None),
    }
}

/// The speed and the remaining time in a line, which stand behind the words "at" and "ETA".
pub fn parse_speed_eta(line: &str) -> (result: (Option<String>, Option<String>))
    ensures
        (result.0.deep_view(), result.1.deep_view()) == speed_eta_in(line@),
{
    let at: usize = match find(line, " at ") {
        Some(i) => i,
        None => return (None, None),
    };
    proof {
        lemma_first_at(line@, " at "@);
        reveal_strlit(" at ");
    }
    let chars = chars_of(line);
    let length: usize = chars.len();
    let rest = text_of(&chars, at + 4, length);
    assert(rest@ =~= line@.skip(at + 4));
    let eta: usize = match find(rest.as_str(), " ETA ") {
        Some(k) => k,
        None => return (Some(trim(rest.as_str())), None),
    };
    proof {
        lemma_first_at(rest@, " ETA "@);
        reveal_strlit(" ETA ");
    }
    let tail = chars_of(rest.as_str());
    let before = text_of(&tail, 0, eta);
    let length: usize = tail.len();
    let after = text_of(&tail, eta + 5, length);
    assert(before@ =~= rest@.take(eta as int));
    assert(after@ =~= rest@.skip(eta + 5));
    (some_unless_empty(trim(before.as_str())), some_unless_empty(trim(after.as_str())))
}

/// A line about work on a file that has been downloaded.
pub open spec fn is_processing_line(line: Seq<char>) -> bool {
    ||| has_text(line, "[ExtractAudio]"@)
    ||| has_text(line, "[VideoRemuxer]"@)
    ||| has_prefix(line, "[Merger]"@)
    ||| has_prefix(line, "[VideoConvertor]"@)
    ||| has_prefix(line, "[Fixup"@)
    ||| has_prefix(line, "Deleting original file"@)
}

/// A line about the course of a download, to be shown as it is.
pub open spec fn is_download_note(line: Seq<char>) -> bool {
    ||| has_prefix(line, "[download] Downloading"@)
    ||| has_prefix(line, "[download] Got error"@)
    ||| has_prefix(line, "[download] Unable"@)
}

/// The news in a line that yt-dlp marks as one about the download.
pub open spec fn download_news(id: Seq<char>, line: Seq<char>) -> Option<UpdateView> {
    if has_text(line, "has already been downloaded"@) {
        Some(news(id, "completed"@, Some("100"@), None, Some("El archivo ya existía."@)))
    } else if is_download_note(line) {
        Some(news(id, "downloading"@, None, None, Some(line)))
    } else {
        let progress = percent_in(line);
        let (speed, eta) = speed_eta_in(line);
        if progress is Some || speed is Some || eta is Some {
            Some(
                UpdateView {
                    id,
                    status: "downloading"@,
                    progress,
                    speed,
                    eta,
                    file: None,
                    message: None,
                },
            )
        } else {
            None
        }
    }
}

/// The news in a line, if any. The first rule that fits the line decides.
pub open spec fn line_news(id: Seq<char>, line: Seq<char>) -> Option<UpdateView> {
    let finished = "[download] Final file: "@;
    let destination = "[download] Destination: "@;
    let merging = "[Merger] Merging formats into "@;
    if line.len() == 0 {
        None
    } else if has_prefix(line, finished) {
        Some(
            news(
                id,
                "completed"@,
                Some("100"@),
                Some(trimmed(line.skip(finished.len() as int))),
                Some("Archivo listo."@),
            ),
        )
    } else if has_prefix(line, destination) {
        Some(
            news(
                id,
                "downloading"@,
                None,
                Some(trimmed(line.skip(destination.len() as int))),
                Some("Archivo destino detectado."@),
            ),
        )
    } else if has_prefix(line, merging) {
        Some(
            news(
                id,
                "processing"@,
                None,
                Some(trimmed_of(line.skip(merging.len() as int), seq!['"'])),
                Some("Uniendo audio y video."@),
            ),
        )
    } else if is_processing_line(line) {
        Some(news(id, "processing"@, None, None, Some(line)))
    } else if has_prefix(line, "WARNING:"@) {
        Some(news(id, "extracting"@, None, None, Some(line)))
    } else if has_text(line, "[download]"@) {
        download_news(id, line)
    } else if has_prefix(line, "ERROR:"@) {
        Some(news(id, "failed"@, None, None, Some(line)))
    } else if has_prefix(line, "["@) {
        Some(news(id, "extracting"@, None, None, Some(line)))
    } else {
        None
    }
}

/// An update that may be missing, as what it says.
pub open spec fn update_view(update: Option<DownloadUpdate>) -> Option<UpdateView> {
    match update {
        Some(update) => Some(update@),
        None => None,
    }
}

fn parse_download_news(job_id: &str, line: &str) -> (update: Option<DownloadUpdate>)
    ensures
        update_view(update) == download_news(job_id@, line@),
{
    if contains(line, "has already been downloaded") {
        return Some(
            make_news(job_id, "completed", Some("100"), None, Some("El archivo ya existía.")),
        );
    }
    if starts_with(line, "[download] Downloading") || starts_with(line, "[download] Got error")
        || starts_with(line, "[download] Unable") {
        return Some(make_news(job_id, "downloading", None, None, Some(line)));
    }
    let progress = parse_percent(line);
    let (speed, eta) = parse_speed_eta(line);
    if progress.is_some() || speed.is_some() || eta.is_some() {
        Some(
            DownloadUpdate {
                id: job_id.to_string(),
                status: "downloading".to_string(),
                progress,
                speed,
                eta,
                file: None,
                message: None,
            },
        )
    } else {
        None
    }
}

/// The news in a line, if any.
pub fn parse_download_line(job_id: &str, line: &str) -> (update: Option<DownloadUpdate>)
    ensures
        update_view(update) == line_news(job_id@, line@),
{
    if line.is_empty() {
        return None;
    }
    if let Some(file) = strip_prefix(line, "[download] Final file: ") {
        let file = trim(file.as_str());
        return Some(
            make_news(job_id, "completed", Some("100"), Some(file), Some("Archivo listo.")),
        );
    }
    if let Some(file) = strip_prefix(line, "[download] Destination: ") {
        let file = trim(file.as_str());
        return Some(
            make_news(job_id, "downloading", None, Some(file), Some("Archivo destino detectado.")),
        );
    }
    if let Some(file) = strip_prefix(line, "[Merger] Merging formats into ") {
        let file = trim_matches(file.as_str(), &['"']);
        assert(['"']@ =~= seq!['"']);
        return Some(
            make_news(job_id, "processing", None, Some(file), Some("Uniendo audio y video.")),
        );
    }
    if contains(line, "[ExtractAudio]") || contains(line, "[VideoRemuxer]") || starts_with(
        line,
        "[Merger]",
    ) || starts_with(line, "[VideoConvertor]") || starts_with(line, "[Fixup") || starts_with(
        line,
        "Deleting original file",
    ) {
        return Some(make_news(job_id, "processing", None, None, Some(line)));
    }
    if starts_with(line, "WARNING:") {
        return Some(make_news(job_id, "extracting", None, None, Some(line)));
    }
    if contains(line, "[download]") {
        return parse_download_news(job_id, line);
    }
    if starts_with(line, "ERROR:") {
        return Some(make_news(job_id, "failed", None, None, Some(line)));
    }
    if starts_with(line, "[") {
        return Some(make_news(job_id, "extracting", None, None, Some(line)));
    }
    None
}

/// News is always about the job whose line was read, comes under one of five statuses and is never
/// empty, and what is reported complete is reported to the last percent.
pub proof fn law_line_news(id: Seq<char>, line: Seq<char>)
    ensures
        line_news(id, line) matches Some(update) ==> {
            &&& update.id == id
            &&& {
                ||| update.status == "extracting"@
                ||| update.status == "downloading"@
                ||| update.status == "processing"@
                ||| update.status == "completed"@
                ||| update.status == "failed"@
            }
            &&& update.status == "completed"@ ==> update.progress == Some("100"@)
            &&& update.file is Some || update.message is Some || update.progress is Some
                || update.speed is Some || update.eta is Some
        },
{
    reveal_strlit("completed");
    reveal_strlit("downloading");
    reveal_strlit("processing");
    reveal_strlit("extracting");
    reveal_strlit("failed");
}

/// A path that begins and ends with something else than white space.
pub open spec fn is_plain_path(path: Seq<char>) -> bool {
    path.len() > 0 && !is_white(path[0]) && !is_white(path.last())
}

/// The line that reports the finished file is news of completion, with the whole path, whatever
/// blanks stand in it.
pub proof fn law_final_file(id: Seq<char>, path: Seq<char>)
    requires
        is_plain_path(path),
    ensures
        line_news(id, "[download] Final file: "@ + path) == Some(
            UpdateView {
                id,
                status: "completed"@,
                progress: Some("100"@),
                speed: None,
                eta: None,
                file: Some(path),
                message: Some("Archivo listo."@),
            },
        ),
{
    let lead = "[download] Final file: "@;
    law_pieces_are_found(seq![], lead, path);
    assert((lead + path).skip(lead.len() as int) =~= path);
    law_trimming_keeps_the_core(seq![], path, seq![]);
    assert(seq![] + path + seq![] =~= path);
}

/// The line that names the file to be written is news of a running download, with the whole path,
/// whatever blanks stand in it.
pub proof fn law_destination(id: Seq<char>, path: Seq<char>)
    requires
        is_plain_path(path),
    ensures
        line_news(id, "[download] Destination: "@ + path) == Some(
            UpdateView {
                id,
                status: "downloading"@,
                progress: None,
                speed: None,
                eta: None,
                file: Some(path),
                message: Some("Archivo destino detectado."@),
            },
        ),
{
    let lead = "[download] Destination: "@;
    reveal_strlit("[download] Destination: ");
    reveal_strlit("[download] Final file: ");
    law_pieces_are_found(seq![], lead, path);
    lemma_other_lead(lead, "[download] Final file: "@, path, 11);
    assert((lead + path).skip(lead.len() as int) =~= path);
    law_trimming_keeps_the_core(seq![], path, seq![]);
    assert(seq![] + path + seq![] =~= path);
}

proof fn lemma_other_lead(lead: Seq<char>, other: Seq<char>, rest: Seq<char>, i: int)
    requires
        0 <= i < lead.len(),
        i < other.len(),
        lead[i] != other[i],
    ensures
        !has_prefix(lead + rest, other),
{
    if has_prefix(lead + rest, other) {
        assert((lead + rest).subrange(0, other.len() as int)[i] == lead[i]);
    }
}

/// The line that names the file that pictures and sound are merged into is news of processing,
/// with the path without the quotes around it.
pub proof fn law_merging_line(
    id: Seq<char>,
    opening: Seq<char>,
    path: Seq<char>,
    closing: Seq<char>,
)
    requires
        forall|i: int| 0 <= i < opening.len() ==> opening[i] == '"',
        forall|i: int| 0 <= i < closing.len() ==> closing[i] == '"',
        path.len() > 0,
        path[0] != '"',
        path.last() != '"',
    ensures
        line_news(id, "[Merger] Merging formats into "@ + (opening + path + closing)) == Some(
            UpdateView {
                id,
                status: "processing"@,
                progress: None,
                speed: None,
                eta: None,
                file: Some(path),
                message: Some("Uniendo audio y video."@),
            },
        ),
{
    let lead = "[Merger] Merging formats into "@;
    let quoted = opening + path + closing;
    let marks = seq!['"'];
    assert(marks[0] == '"');
    reveal_strlit("[Merger] Merging formats into ");
    reveal_strlit("[download] Final file: ");
    reveal_strlit("[download] Destination: ");
    law_pieces_are_found(seq![], lead, quoted);
    lemma_other_lead(lead, "[download] Final file: "@, quoted, 1);
    lemma_other_lead(lead, "[download] Destination: "@, quoted, 1);
    assert((lead + quoted).skip(lead.len() as int) =~= quoted);
    law_stripping_keeps_the_core(opening, path, closing, marks);
}

/// The line is one of those that are about a file: it names a file that is finished, is to be
/// written, or is merged into.
pub open spec fn names_file(line: Seq<char>) -> bool {
    ||| has_prefix(line, "[download] Final file: "@)
    ||| has_prefix(line, "[download] Destination: "@)
    ||| has_prefix(line, "[Merger] Merging formats into "@)
}

/// The line reports work on a file that has been downloaded.
pub open spec fn reports_processing(line: Seq<char>) -> bool {
    ||| has_text(line, "[ExtractAudio]"@)
    ||| has_text(line, "[VideoRemuxer]"@)
    ||| has_prefix(line, "[Merger]"@)
    ||| has_prefix(line, "[VideoConvertor]"@)
    ||| has_prefix(line, "[Fixup"@)
    ||| has_prefix(line, "Deleting original file"@)
}

/// A line that names no file is passed on whole, under the status that its mark stands for: work
/// on the file, a warning, an error, a remark on the download, or what else a part of yt-dlp says
/// under its name. A line without a mark is no news.
pub proof fn law_marked_lines(id: Seq<char>, line: Seq<char>)
    requires
        line.len() > 0,
        !names_file(line),
    ensures
        reports_processing(line) ==> line_news(id, line) == Some(
            news(id, "processing"@, None, None, Some(line)),
        ),
        !reports_processing(line) && has_prefix(line, "WARNING:"@) ==> line_news(id, line) == Some(
            news(id, "extracting"@, None, None, Some(line)),
        ),
        !reports_processing(line) && has_prefix(line, "ERROR:"@) && !has_text(line, "[download]"@)
            ==> line_news(id, line) == Some(news(id, "failed"@, None, None, Some(line))),
        !reports_processing(line) && has_prefix(line, "["@) && !has_text(line, "[download]"@)
            ==> line_news(id, line) == Some(news(id, "extracting"@, None, None, Some(line))),
        !reports_processing(line) && !has_prefix(line, "WARNING:"@) && !has_prefix(line, "ERROR:"@)
            && !has_prefix(line, "["@) && !has_text(line, "[download]"@) ==> line_news(id, line)
            is None,
        !reports_processing(line) && !has_prefix(line, "WARNING:"@) && has_text(
            line,
            "[download]"@,
        ) && has_text(line, "has already been downloaded"@) ==> line_news(id, line) == Some(
            news(id, "completed"@, Some("100"@), None, Some("El archivo ya existía."@)),
        ),
        !reports_processing(line) && !has_text(line, "has already been downloaded"@) && (
        has_prefix(line, "[download] Downloading"@) || has_prefix(line, "[download] Got error"@)
            || has_prefix(line, "[download] Unable"@)) ==> line_news(id, line) == Some(
            news(id, "downloading"@, None, None, Some(line)),
        ),
{
    reveal_strlit("[");
    reveal_strlit("ERROR:");
    reveal_strlit("WARNING:");
    reveal_strlit("[download]");
    reveal_strlit("[download] Downloading");
    reveal_strlit("[download] Got error");
    reveal_strlit("[download] Unable");
    assert(has_prefix(line, "["@) ==> line[0] == '[') by {
        if has_prefix(line, "["@) {
            assert(line.subrange(0, 1)[0] == '[');
        }
    }
    assert(has_prefix(line, "ERROR:"@) ==> line[0] == 'E') by {
        if has_prefix(line, "ERROR:"@) {
            assert(line.subrange(0, 6)[0] == 'E');
        }
    }
    assert(has_prefix(line, "WARNING:"@) ==> line[0] == 'W') by {
        if has_prefix(line, "WARNING:"@) {
            assert(line.subrange(0, 8)[0] == 'W');
        }
    }
    lemma_download_remark(line, "[download] Downloading"@);
    lemma_download_remark(line, "[download] Got error"@);
    lemma_download_remark(line, "[download] Unable"@);
}

proof fn lemma_download_remark(line: Seq<char>, remark: Seq<char>)
    requires
        remark.len() >= 10,
        remark.take(10) =~= "[download]"@,
    ensures
        has_prefix(line, remark) ==> has_text(line, "[download]"@) && line[0] == '[',
{
    if has_prefix(line, remark) {
        reveal_strlit("[download]");
        let n = remark.len() as int;
        assert(line.subrange(0, n)[0] == remark[0]);
        assert(remark.take(10)[0] == remark[0]);
        assert(line.subrange(0, 10) =~= line.subrange(0, n).take(10));
        assert(occurs_at(line, "[download]"@, 0));
    }
}

/// The percentage in a line is the number that stands right before the first percent sign.
pub proof fn law_percentage(before: Seq<char>, number: Seq<char>, after: Seq<char>)
    requires
        !before.contains('%'),
        !number.contains('%'),
        before.len() > 0 ==> is_white(before.last()),
        is_word(number),
    ensures
        percent_in(before + number + "%"@ + after) == if is_float(number) {
            Some(number)
        } else {
            None
        },
{
    reveal_strlit("%");
    let sign = "%"@;
    let head = before + number;
    assert((head + sign).drop_last() =~= head);
    assert(!has_text(head, sign)) by {
        if has_text(head, sign) {
            let i = choose|i: int| occurs_at(head, sign, i);
            assert(head.subrange(i, i + 1)[0] == '%');
            assert(head[i] == '%');
            if i < before.len() {
                assert(before[i] == '%');
            } else {
                assert(number[i - before.len()] == '%');
            }
        }
    }
    law_search(head, sign, after);
    let line = head + sign + after;
    assert(line.take(head.len() as int) =~= head);
    if before.len() > 0 {
        law_words(before.drop_last(), before.last(), number);
        assert(before.drop_last() + seq![before.last()] + number =~= head);
    } else {
        assert(head =~= number);
    }
    law_words(number, ' ', seq![]);
}

/// A line without a percent sign tells no percentage.
pub proof fn law_no_percentage(line: Seq<char>)
    requires
        !line.contains('%'),
    ensures
        percent_in(line) is None,
{
    reveal_strlit("%");
    lemma_first_at(line, "%"@);
    if has_text(line, "%"@) {
        let i = choose|i: int| occurs_at(line, "%"@, i);
        assert(line.subrange(i, i + 1)[0] == '%');
        assert(line[i] == '%');
    }
}

/// A figure that begins and ends with something else than white space, or an empty one.
pub open spec fn is_plain_figure(figure: Seq<char>) -> bool {
    figure.len() > 0 ==> is_plain_path(figure)
}

/// The speed stands behind the word `at`, up to the word `ETA`, and the remaining time behind that,
/// each without the white space around it. One that is empty is not told, whatever the other is.
pub proof fn law_speed_and_time(
    before: Seq<char>,
    speed: Seq<char>,
    time: Seq<char>,
    left: Seq<char>,
    right: Seq<char>,
    gap: Seq<char>,
    end: Seq<char>,
)
    requires
        !has_text((before + " at "@).drop_last(), " at "@),
        is_blank(left),
        is_blank(right),
        is_blank(gap),
        is_blank(end),
        is_plain_figure(speed),
        is_plain_figure(time),
        !has_text((left + speed + right + " ETA "@).drop_last(), " ETA "@),
    ensures
        ({
            let told = speed_eta_in(
                before + " at "@ + (left + speed + right + " ETA "@ + (gap + time + end)),
            );
            &&& speed.len() > 0 ==> told.0 == Some(speed)
            &&& speed.len() == 0 ==> told.0 is None
            &&& time.len() > 0 ==> told.1 == Some(time)
            &&& time.len() == 0 ==> told.1 is None
        }),
{
    reveal_strlit(" at ");
    reveal_strlit(" ETA ");
    let word = " at "@;
    let last = gap + time + end;
    let rest = left + speed + right + " ETA "@ + last;
    law_search(before, word, rest);
    let line = before + word + rest;
    assert(line.skip((before.len() + 4) as int) =~= rest);
    let told = left + speed + right;
    law_search(told, " ETA "@, last);
    assert(rest.take(told.len() as int) =~= told);
    assert(rest.skip((told.len() + 5) as int) =~= last);
    law_trimming_keeps_the_core(left, speed, right);
    law_trimming_keeps_the_core(gap, time, end);
}

/// Without the word `ETA`, all that stands behind the word `at` is the speed, even where that is
/// nothing but white space.
pub proof fn law_speed_alone(before: Seq<char>, left: Seq<char>, speed: Seq<char>, right: Seq<char>)
    requires
        !has_text((before + " at "@).drop_last(), " at "@),
        is_blank(left),
        is_blank(right),
        is_plain_figure(speed),
        !has_text(left + speed + right, " ETA "@),
    ensures
        speed_eta_in(before + " at "@ + (left + speed + right)) == (Some(speed), None::<Seq<char>>),
{
    reveal_strlit(" at ");
    let word = " at "@;
    let rest = left + speed + right;
    law_search(before, word, rest);
    assert((before + word + rest).skip((before.len() + 4) as int) =~= rest);
    lemma_first_at(rest, " ETA "@);
    law_trimming_keeps_the_core(left, speed, right);
}

/// Any other line about the download reports the percentage, the speed and the remaining time that
/// stand in it, and is no news where it tells none of them.
pub proof fn law_progress_line(id: Seq<char>, line: Seq<char>)
    requires
        has_text(line, "[download]"@),
        !names_file(line),
        !reports_processing(line),
        !has_prefix(line, "WARNING:"@),
        !has_text(line, "has already been downloaded"@),
        !has_prefix(line, "[download] Downloading"@),
        !has_prefix(line, "[download] Got error"@),
        !has_prefix(line, "[download] Unable"@),
    ensures
        match line_news(id, line) {
            Some(update) => {
                &&& update.id == id
                &&& update.status == "downloading"@
                &&& update.progress == percent_in(line)
                &&& update.speed == speed_eta_in(line).0
                &&& update.eta == speed_eta_in(line).1
                &&& update.file is None
                &&& update.message is None
                &&& update.progress is Some || update.speed is Some || update.eta is Some
            },
            None => percent_in(line) is None && speed_eta_in(line).0 is None && speed_eta_in(
                line,
            ).1 is None,
        },
{
    reveal_strlit("[download]");
}

/// White space around the path of a file makes no difference.
pub proof fn law_paths_are_trimmed(id: Seq<char>, left: Seq<char>, path: Seq<char>, right: Seq<char>)
    requires
        is_blank(left),
        is_blank(right),
        is_plain_path(path),
    ensures
        line_news(id, "[download] Final file: "@ + (left + path + right)) == line_news(
            id,
            "[download] Final file: "@ + path,
        ),
        line_news(id, "[download] Destination: "@ + (left + path + right)) == line_news(
            id,
            "[download] Destination: "@ + path,
        ),
{
    let whole = left + path + right;
    law_final_file(id, path);
    law_destination(id, path);
    law_trimming_keeps_the_core(left, path, right);
    let finished = "[download] Final file: "@;
    law_pieces_are_found(seq![], finished, whole);
    assert((finished + whole).skip(finished.len() as int) =~= whole);
    let destination = "[download] Destination: "@;
    reveal_strlit("[download] Destination: ");
    reveal_strlit("[download] Final file: ");
    law_pieces_are_found(seq![], destination, whole);
    lemma_other_lead(destination, finished, whole, 11);
    assert((destination + whole).skip(destination.len() as int) =~= whole);
}

/// A percent sign with nothing but white space before it tells no percentage, and an empty line is
/// no news.
pub proof fn law_bare_signs(id: Seq<char>, before: Seq<char>, after: Seq<char>)
    requires
        is_blank(before),
    ensures
        percent_in(before + "%"@ + after) is None,
        line_news(id, seq![]) is None,
{
    reveal_strlit("%");
    let sign = "%"@;
    assert((before + sign).drop_last() =~= before);
    assert(!has_text(before, sign)) by {
        if has_text(before, sign) {
            let i = choose|i: int| occurs_at(before, sign, i);
            assert(before.subrange(i, i + 1)[0] == '%');
            assert(is_white(before[i]));
        }
    }
    law_search(before, sign, after);
    assert((before + sign + after).take(before.len() as int) =~= before);
    lemma_blank_has_no_words(before);
}

proof fn lemma_blank_has_no_words(text: Seq<char>)
    requires
        is_blank(text),
    ensures
        words(text).len() == 0,
    decreases text.len(),
{
    if text.len() > 0 {
        assert(is_white(text[0]));
        assert forall|i: int| 0 <= i < text.skip(1).len() implies is_white(
            #[trigger] text.skip(1)[i],
        ) by {
            assert(text.skip(1)[i] == text[i + 1]);
        }
        lemma_blank_has_no_words(text.skip(1));
        law_words(seq![], text[0], text.skip(1));
        assert(Seq::<char>::empty() + seq![text[0]] + text.skip(1) =~= text);
    } else {
        law_words(text, ' ', seq![]);
    }
}

/// Where the word `at` is missing, neither a speed nor a remaining time is told.
pub proof fn law_untold_figures(line: Seq<char>)
    requires
        !has_text(line, " at "@),
    ensures
        speed_eta_in(line) == (None::<Seq<char>>, None::<Seq<char>>),
{
    lemma_first_at(line, " at "@);
}

} // verus!
