//! One download job: how yt-dlp is called for it, and what is reported of it.

use vstd::prelude::*;

use crate::address::{law_split_at_slashes, split_at_slashes};
use crate::numbers::{decimal, law_decimal, push_decimal};
use crate::progress::{
    is_plain_path, law_final_file, law_line_news, line_news, make_news, news, parse_download_line, update_view, DownloadUpdate, UpdateView,
};
use crate::text::{
    ascii_lowered, contains, has_prefix, has_text, law_pieces_are_found, starts_with,
    to_ascii_lowercase, trim, trimmed,
};
use crate::tools::{
    append_browser_args, append_ffmpeg_args, append_runtime_args, browser_args, browser_choice,
    ffmpeg_args, has_option, push_arg, runtime_args, unknown_browser_message,
};

verus! {

/// A download that a user asks for.
#[derive(Debug)]
pub struct DownloadJob {
    pub id: String,
    pub title: Option<String>,
    pub url: String,
    pub max_height: Option<u32>,
}

/// The largest height of a picture that is ever asked for.
pub const MAX_HEIGHT: u32 = 16384;

/// The formats to download, the best first, with pictures up to the given height.
pub open spec fn selector(max_height: Option<u32>) -> Seq<char> {
    match max_height {
        Some(height) if height > 0 => {
            let limit = "[height<="@ + decimal(
                if height > MAX_HEIGHT {
                    MAX_HEIGHT as nat
                } else {
                    height as nat
                },
            ) + "]"@;
            "bv*"@ + limit + "[ext=mp4]+ba[ext=m4a]/b"@ + limit + "[ext=mp4]/bv*"@ + limit
                + "+ba/b"@ + limit
        },
        _ => "bv*[ext=mp4]+ba[ext=m4a]/b[ext=mp4]/bv*+ba/b"@,
    }
}

/// The formats to download, the best first, with pictures up to the given height.
pub fn format_selector(max_height: Option<u32>) -> (formats: String)
    ensures
        formats@ == selector(max_height),
{
    let height: u32 = match max_height {
        Some(height) => height,
        None => 0,
    };
    if height == 0 {
        return "bv*[ext=mp4]+ba[ext=m4a]/b[ext=mp4]/bv*+ba/b".to_string();
    }
    let height: u32 = if height > MAX_HEIGHT {
        MAX_HEIGHT
    } else {
        height
    };
    let mut limit = "[height<=".to_string();
    push_decimal(&mut limit, height as u64);
    limit.append("]");
    let mut formats = "bv*".to_string();
    formats.append(limit.as_str());
    formats.append("[ext=mp4]+ba[ext=m4a]/b");
    formats.append(limit.as_str());
    formats.append("[ext=mp4]/bv*");
    formats.append(limit.as_str());
    formats.append("+ba/b");
    formats.append(limit.as_str());
    formats
}

/// The arguments that every download gets, whatever the user asks for.
pub open spec fn fixed_arguments(max_height: Option<u32>) -> Seq<Seq<char>> {
    seq![
        "--newline"@,
        "--no-color"@,
        "--ignore-config"@,
        "--windows-filenames"@,
        "--no-playlist"@,
        "--continue"@,
        "--part"@,
        "--retries"@,
        "10"@,
        "--fragment-retries"@,
        "10"@,
        "--file-access-retries"@,
        "10"@,
        "--retry-sleep"@,
        "fragment:exp=1:20"@,
        "--socket-timeout"@,
        "30"@,
        "--concurrent-fragments"@,
        "4"@,
        "--format"@,
        selector(max_height),
        "--merge-output-format"@,
        "mp4"@,
        "--no-overwrites"@,
        "--print"@,
        "after_move:[download] Final file: %(filepath)s"@,
        "-o"@,
        "%(title).200B [%(id)s].%(ext)s"@,
    ]
}

/// The arguments that name the output folder.
pub open spec fn folder_args(output_dir: Option<Seq<char>>) -> Seq<Seq<char>> {
    match output_dir {
        Some(path) => seq!["-P"@, path],
        None => seq![],
    }
}

/// The arguments that name the page a download comes from.
pub open spec fn referer_args(referer: Option<Seq<char>>) -> Seq<Seq<char>> {
    match referer {
        Some(text) => if trimmed(text).len() > 0 {
            seq!["--referer"@, trimmed(text)]
        } else {
            seq![]
        },
        None => seq![],
    }
}

/// The arguments with which yt-dlp is called for a job.
pub open spec fn download_arguments(
    url: Seq<char>,
    max_height: Option<u32>,
    node: Option<Seq<char>>,
    ffmpeg: Option<(Seq<char>, Option<Seq<char>>)>,
    browser: Option<Seq<char>>,
    output_dir: Option<Seq<char>>,
    referer: Option<Seq<char>>,
) -> Seq<Seq<char>> {
    fixed_arguments(max_height) + runtime_args(node) + ffmpeg_args(ffmpeg) + browser_args(browser)
        + folder_args(output_dir) + referer_args(referer) + seq![url]
}

fn push_fixed_args(args: &mut Vec<String>, max_height: Option<u32>)
    ensures
        final(args).deep_view() == old(args).deep_view() + fixed_arguments(max_height),
{
    push_arg(args, "--newline");
    push_arg(args, "--no-color");
    push_arg(args, "--ignore-config");
    push_arg(args, "--windows-filenames");
    push_arg(args, "--no-playlist");
    push_arg(args, "--continue");
    push_arg(args, "--part");
    push_arg(args, "--retries");
    push_arg(args, "10");
    push_arg(args, "--fragment-retries");
    push_arg(args, "10");
    push_arg(args, "--file-access-retries");
    push_arg(args, "10");
    push_arg(args, "--retry-sleep");
    push_arg(args, "fragment:exp=1:20");
    push_arg(args, "--socket-timeout");
    push_arg(args, "30");
    push_arg(args, "--concurrent-fragments");
    push_arg(args, "4");
    push_arg(args, "--format");
    push_arg(args, format_selector(max_height).as_str());
    push_arg(args, "--merge-output-format");
    push_arg(args, "mp4");
    push_arg(args, "--no-overwrites");
    push_arg(args, "--print");
    push_arg(args, "after_move:[download] Final file: %(filepath)s");
    push_arg(args, "-o");
    push_arg(args, "%(title).200B [%(id)s].%(ext)s");
    assert(args.deep_view() =~= old(args).deep_view() + fixed_arguments(max_height));
}

/// The arguments with which yt-dlp is called for a job.
pub fn download_args(
    job: &DownloadJob,
    node: Option<&str>,
    ffmpeg: Option<(&str, Option<&str>)>,
    browser: Option<&str>,
    output_dir: Option<&str>,
    referer: Option<&str>,
) -> (result: Result<Vec<String>, String>)
    ensures
        match browser_choice(browser.deep_view()) {
            Ok(name) => result matches Ok(args) && args.deep_view() == download_arguments(
                job.url@,
                job.max_height,
                node.deep_view(),
                ffmpeg.deep_view(),
                name,
                output_dir.deep_view(),
                referer.deep_view(),
            ),
            Err(_) => result matches Err(message) && message@ == unknown_browser_message(),
        },
{
    let mut args: Vec<String> = Vec::new();
    push_fixed_args(&mut args, job.max_height);
    append_runtime_args(&mut args, node);
    append_ffmpeg_args(&mut args, ffmpeg);
    match append_browser_args(&mut args, browser) {
        Ok(()) => {},
        Err(message) => return Err(message),
    }
    let ghost before = args.deep_view();
    if let Some(path) = output_dir {
        push_arg(&mut args, "-P");
        push_arg(&mut args, path);
    }
    assert(args.deep_view() =~= before + folder_args(output_dir.deep_view()));
    let ghost before = args.deep_view();
    if let Some(page) = referer {
        let page = trim(page);
        if !page.as_str().is_empty() {
            push_arg(&mut args, "--referer");
            push_arg(&mut args, page.as_str());
        }
    }
    assert(args.deep_view() =~= before + referer_args(referer.deep_view()));
    push_arg(&mut args, job.url.as_str());
    assert(args.deep_view() =~= download_arguments(
        job.url@,
        job.max_height,
        node.deep_view(),
        ffmpeg.deep_view(),
        browser_choice(browser.deep_view())->Ok_0,
        output_dir.deep_view(),
        referer.deep_view(),
    ));
    Ok(args)
}

/// How a job is begun: the news that it starts, and the call of yt-dlp, or the news that there is
/// none.
#[derive(Debug)]
pub struct JobPlan {
    pub started: DownloadUpdate,
    pub launch: Result<Vec<String>, DownloadUpdate>,
}

/// The news that a job starts.
pub open spec fn started_news(job: DownloadJob) -> UpdateView {
    news(
        job.id@,
        "extracting"@,
        Some("0"@),
        None,
        Some(
            match job.title {
                Some(title) => title@,
                None => job.url@,
            },
        ),
    )
}

/// The news that a job failed, and why.
pub open spec fn failed_news(id: Seq<char>, message: Seq<char>) -> UpdateView {
    news(id, "failed"@, None, None, Some(message))
}

/// Begins a job.
pub fn run_download_job(
    job: &DownloadJob,
    node: Option<&str>,
    ffmpeg: Option<(&str, Option<&str>)>,
    browser: Option<&str>,
    output_dir: Option<&str>,
    referer: Option<&str>,
) -> (plan: JobPlan)
    ensures
        plan.started@ == started_news(*job),
        match browser_choice(browser.deep_view()) {
            Ok(name) => plan.launch matches Ok(args) && args.deep_view() == download_arguments(
                job.url@,
                job.max_height,
                node.deep_view(),
                ffmpeg.deep_view(),
                name,
                output_dir.deep_view(),
                referer.deep_view(),
            ),
            Err(_) => plan.launch matches Err(update) && update@ == failed_news(
                job.id@,
                unknown_browser_message(),
            ),
        },
{
    let subject = match &job.title {
        Some(title) => title.as_str(),
        None => job.url.as_str(),
    };
    let started = make_news(job.id.as_str(), "extracting", Some("0"), None, Some(subject));
    let launch = match download_args(job, node, ffmpeg, browser, output_dir, referer) {
        Ok(args) => Ok(args),
        Err(message) => Err(
            make_news(job.id.as_str(), "failed", None, None, Some(message.as_str())),
        ),
    };
    JobPlan { started, launch }
}

/// How the call of yt-dlp for a job came to its end.
#[derive(Debug)]
pub enum JobOutcome {
    /// The process could not be started.
    NotStarted { error: String },
    /// The user stopped the job.
    Cancelled,
    /// The process ended by itself, with a status whose text is given.
    Exited { success: bool, status: String },
    /// The end of the process could not be awaited.
    Lost { error: String },
}

/// The news that a job has come to its end.
pub open spec fn outcome_news(
    id: Seq<char>,
    outcome: JobOutcome,
    stderr_message: Option<Seq<char>>,
) -> UpdateView {
    match outcome {
        JobOutcome::NotStarted { error } => failed_news(id, "No pude iniciar yt-dlp: "@ + error@),
        JobOutcome::Cancelled => cancelled_news(id),
        JobOutcome::Exited { success, status } => if success {
            news(id, "completed"@, Some("100"@), None, Some("Descarga completa."@))
        } else {
            failed_news(
                id,
                match stderr_message {
                    Some(message) => message,
                    None => "yt-dlp terminó con código "@ + status@,
                },
            )
        },
        JobOutcome::Lost { error } => failed_news(id, "Error esperando a yt-dlp: "@ + error@),
    }
}

/// The news that a job was stopped.
pub open spec fn cancelled_news(id: Seq<char>) -> UpdateView {
    news(id, "cancelled"@, None, None, Some("Descarga detenida."@))
}

/// The news that a job was stopped.
pub fn cancelled_update(id: &str) -> (update: DownloadUpdate)
    ensures
        update@ == cancelled_news(id@),
{
    make_news(id, "cancelled", None, None, Some("Descarga detenida."))
}

/// The news that a job has come to its end.
pub fn finish_download_job(id: &str, outcome: JobOutcome, stderr_message: Option<String>) -> (update:
    DownloadUpdate)
    ensures
        update@ == outcome_news(id@, outcome, stderr_message.deep_view()),
{
    match outcome {
        JobOutcome::NotStarted { error } => {
            let mut message = "No pude iniciar yt-dlp: ".to_string();
            message.append(error.as_str());
            make_news(id, "failed", None, None, Some(message.as_str()))
        },
        JobOutcome::Cancelled => cancelled_update(id),
        JobOutcome::Exited { success, status } => {
            if success {
                make_news(id, "completed", Some("100"), None, Some("Descarga completa."))
            } else {
                let message = match stderr_message {
                    Some(message) => message,
                    None => {
                        let mut message = "yt-dlp terminó con código ".to_string();
                        message.append(status.as_str());
                        message
                    },
                };
                make_news(id, "failed", None, None, Some(message.as_str()))
            }
        },
        JobOutcome::Lost { error } => {
            let mut message = "Error esperando a yt-dlp: ".to_string();
            message.append(error.as_str());
            make_news(id, "failed", None, None, Some(message.as_str()))
        },
    }
}

/// What is kept of a process's output: its last error and its last warning.
#[derive(Debug)]
pub struct StreamLog {
    pub last_error: Option<String>,
    pub last_warning: Option<String>,
}

/// What is kept of a process's output.
#[verifier::ext_equal]
pub struct LogView {
    pub last_error: Option<Seq<char>>,
    pub last_warning: Option<Seq<char>>,
}

impl View for StreamLog {
    type V = LogView;

    open spec fn view(&self) -> LogView {
        LogView {
            last_error: self.last_error.deep_view(),
            last_warning: self.last_warning.deep_view(),
        }
    }
}

/// A line that reports an error.
pub open spec fn is_error_line(line: Seq<char>) -> bool {
    has_prefix(line, "ERROR:"@) || has_text(ascii_lowered(line), "error:"@)
}

/// A line that reports a warning, and no error.
pub open spec fn is_warning_line(line: Seq<char>) -> bool {
    !is_error_line(line) && has_prefix(line, "WARNING:"@)
}

/// The log after one more line.
pub open spec fn log_step(log: LogView, line: Seq<char>) -> LogView {
    let line = trimmed(line);
    if is_error_line(line) {
        LogView { last_error: Some(line), last_warning: log.last_warning }
    } else if is_warning_line(line) {
        LogView { last_error: log.last_error, last_warning: Some(line) }
    } else {
        log
    }
}

/// The log after the given lines.
pub open spec fn log_of(lines: Seq<Seq<char>>) -> LogView
    decreases lines.len(),
{
    if lines.len() == 0 {
        LogView { last_error: None, last_warning: None }
    } else {
        log_step(log_of(lines.drop_last()), lines.last())
    }
}

/// What a log comes to: its error, else its warning.
pub open spec fn log_message(log: LogView) -> Option<Seq<char>> {
    match log.last_error {
        Some(line) => Some(line),
        None => log.last_warning,
    }
}

impl StreamLog {
    /// A log of no lines.
    pub fn new() -> (log: StreamLog)
        ensures
            log@ == log_of(seq![]),
    {
        StreamLog { last_error: None, last_warning: None }
    }

    /// Takes in one line of a job's output, and gives the news in it, if any.
    pub fn read_line(&mut self, job_id: &str, line: &str) -> (update: Option<DownloadUpdate>)
        ensures
            final(self)@ == log_step(old(self)@, line@),
            update_view(update) == line_news(job_id@, trimmed(line@)),
    {
        let line = trim(line);
        let lowercase = to_ascii_lowercase(line.as_str());
        if starts_with(line.as_str(), "ERROR:") || contains(lowercase.as_str(), "error:") {
            self.last_error = Some(line.clone());
        } else if starts_with(line.as_str(), "WARNING:") {
            self.last_warning = Some(line.clone());
        }
        parse_download_line(job_id, line.as_str())
    }

    /// What the log comes to: its last error, else its last warning.
    pub fn message(self) -> (message: Option<String>)
        ensures
            message.deep_view() == log_message(self@),
    {
        match self.last_error {
            Some(line) => Some(line),
            None => self.last_warning,
        }
    }
}

/// `line` is the last of the lines that satisfies `wanted`, white space at its ends aside.
pub open spec fn is_last_such(
    lines: Seq<Seq<char>>,
    wanted: spec_fn(Seq<char>) -> bool,
    line: Option<Seq<char>>,
) -> bool {
    match line {
        Some(text) => exists|i: int|
            #![trigger lines[i]]
            0 <= i < lines.len() && trimmed(lines[i]) == text && wanted(text) && forall|j: int|
                i < j < lines.len() ==> !wanted(trimmed(#[trigger] lines[j])),
        None => forall|j: int| 0 <= j < lines.len() ==> !wanted(trimmed(#[trigger] lines[j])),
    }
}

proof fn lemma_last_such(
    lines: Seq<Seq<char>>,
    wanted: spec_fn(Seq<char>) -> bool,
    before: Option<Seq<char>>,
)
    requires
        lines.len() > 0,
        is_last_such(lines.drop_last(), wanted, before),
    ensures
        wanted(trimmed(lines.last())) ==> is_last_such(lines, wanted, Some(trimmed(lines.last()))),
        !wanted(trimmed(lines.last())) ==> is_last_such(lines, wanted, before),
{
    let last = lines.len() - 1;
    let head = lines.drop_last();
    assert(lines[last] == lines.last());
    assert forall|j: int| 0 <= j < head.len() implies head[j] == #[trigger] lines[j] by {}
    if !wanted(trimmed(lines.last())) {
        if let Some(text) = before {
            let i = choose|i: int|
                #![trigger head[i]]
                0 <= i < head.len() && trimmed(head[i]) == text && wanted(text) && forall|j: int|
                    i < j < head.len() ==> !wanted(trimmed(#[trigger] head[j]));
            assert(lines[i] == head[i]);
        }
    }
}

/// A process's output comes to its last error line, or to its last warning where no line reports
/// an error.
pub proof fn law_stream_message(lines: Seq<Seq<char>>)
    ensures
        is_last_such(lines, |line: Seq<char>| is_error_line(line), log_of(lines).last_error),
        is_last_such(lines, |line: Seq<char>| is_warning_line(line), log_of(lines).last_warning),
        log_of(lines).last_error is Some ==> log_message(log_of(lines)) == log_of(lines).last_error,
        log_of(lines).last_error is None ==> log_message(log_of(lines)) == log_of(
            lines,
        ).last_warning,
    decreases lines.len(),
{
    if lines.len() > 0 {
        let before = lines.drop_last();
        law_stream_message(before);
        lemma_last_such(lines, |line: Seq<char>| is_error_line(line), log_of(before).last_error);
        lemma_last_such(
            lines,
            |line: Seq<char>| is_warning_line(line),
            log_of(before).last_warning,
        );
    }
}

/// Whatever a user asks for, one call of yt-dlp is made for the one address of the job: it comes
/// last, and playlists, overwriting and the user's own configuration are switched off.
pub proof fn law_download_arguments(
    url: Seq<char>,
    max_height: Option<u32>,
    node: Option<Seq<char>>,
    ffmpeg: Option<(Seq<char>, Option<Seq<char>>)>,
    browser: Option<Seq<char>>,
    output_dir: Option<Seq<char>>,
    referer: Option<Seq<char>>,
)
    ensures
        ({
            let args = download_arguments(
                url,
                max_height,
                node,
                ffmpeg,
                browser,
                output_dir,
                referer,
            );
            &&& args.last() == url
            &&& args.contains("--no-playlist"@)
            &&& args.contains("--no-overwrites"@)
            &&& args.contains("--ignore-config"@)
        }),
{
    let args = download_arguments(url, max_height, node, ffmpeg, browser, output_dir, referer);
    assert(args[2] == fixed_arguments(max_height)[2]);
    assert(args[4] == fixed_arguments(max_height)[4]);
    assert(args[23] == fixed_arguments(max_height)[23]);
}

/// The news in the lines of a job's output, in the order of the lines.
pub open spec fn output_news(id: Seq<char>, lines: Seq<Seq<char>>) -> Seq<UpdateView>
    decreases lines.len(),
{
    if lines.len() == 0 {
        seq![]
    } else {
        let before = output_news(id, lines.drop_last());
        match line_news(id, trimmed(lines.last())) {
            Some(update) => before.push(update),
            None => before,
        }
    }
}

/// All that is reported of a job that is run: that it starts; the news in its output, whose lines
/// are given in the order in which they are read from either stream; and how it ends. A job whose
/// call of yt-dlp cannot be made, or whose process cannot be started, has no output.
pub open spec fn job_news(
    job: DownloadJob,
    browser: Option<Seq<char>>,
    lines: Seq<Seq<char>>,
    outcome: JobOutcome,
    stderr_message: Option<Seq<char>>,
) -> Seq<UpdateView> {
    let id = job.id@;
    let started = seq![started_news(job)];
    match browser_choice(browser) {
        Err(_) => started.push(failed_news(id, unknown_browser_message())),
        Ok(_) => {
            let output = if outcome is NotStarted {
                seq![]
            } else {
                output_news(id, lines)
            };
            (started + output).push(outcome_news(id, outcome, stderr_message))
        },
    }
}

proof fn lemma_output_news(id: Seq<char>, lines: Seq<Seq<char>>)
    ensures
        forall|i: int|
            0 <= i < output_news(id, lines).len() ==> (#[trigger] output_news(id, lines)[i]).id
                == id,
    decreases lines.len(),
{
    if lines.len() > 0 {
        lemma_output_news(id, lines.drop_last());
        law_line_news(id, trimmed(lines.last()));
    }
}

/// All that is reported of a job is about that job. It begins with the news that the job starts,
/// which is named by its title, or by its address where it has none; and it ends with the news that
/// the job is completed, has failed or was cancelled.
pub proof fn law_job_news(
    job: DownloadJob,
    browser: Option<Seq<char>>,
    lines: Seq<Seq<char>>,
    outcome: JobOutcome,
    stderr_message: Option<Seq<char>>,
)
    ensures
        ({
            let all = job_news(job, browser, lines, outcome, stderr_message);
            &&& all.len() >= 2
            &&& forall|i: int| 0 <= i < all.len() ==> (#[trigger] all[i]).id == job.id@
            &&& all[0] == (UpdateView {
                id: job.id@,
                status: "extracting"@,
                progress: Some("0"@),
                speed: None,
                eta: None,
                file: None,
                message: Some(
                    match job.title {
                        Some(title) => title@,
                        None => job.url@,
                    },
                ),
            })
            &&& {
                ||| all.last().status == "completed"@
                ||| all.last().status == "failed"@
                ||| all.last().status == "cancelled"@
            }
        }),
{
    lemma_output_news(job.id@, lines);
}

/// Between the news of its start and of its end, a job's news is that of its lines, in their order
/// and each read without the white space around it; a job that cannot be started has none.
pub proof fn law_output_in_order(
    job: DownloadJob,
    browser: Option<Seq<char>>,
    first: Seq<Seq<char>>,
    line: Seq<char>,
    outcome: JobOutcome,
    stderr_message: Option<Seq<char>>,
)
    requires
        browser_choice(browser) is Ok,
    ensures
        ({
            let start = job_news(job, browser, first, outcome, stderr_message);
            let all = job_news(job, browser, first.push(line), outcome, stderr_message);
            let untold = line_news(job.id@, trimmed(line)) is None;
            &&& outcome is NotStarted ==> all.len() == 2
            &&& outcome !is NotStarted && untold ==> all == start
            &&& outcome !is NotStarted && !untold ==> all.len() == start.len() + 1
                && all[all.len() - 2] == line_news(job.id@, trimmed(line))->0 && all.take(
                all.len() - 2,
            ) == start.drop_last()
            &&& all.last() == start.last()
        }),
        job_news(job, browser, seq![], outcome, stderr_message).len() == 2,
{
    let start = job_news(job, browser, first, outcome, stderr_message);
    let all = job_news(job, browser, first.push(line), outcome, stderr_message);
    assert(first.push(line).drop_last() =~= first);
    if outcome !is NotStarted && line_news(job.id@, trimmed(line)) is Some {
        assert(all.take(all.len() - 2) =~= start.drop_last());
    }
}

/// The value of an option is the argument behind its first occurrence.
pub open spec fn is_option_value(args: Seq<Seq<char>>, name: Seq<char>, value: Seq<char>) -> bool {
    exists|k: int|
        0 <= k < args.len() - 1 && #[trigger] args[k] == name && args[k + 1] == value && forall|j: int|
            0 <= j < k ==> #[trigger] args[j] != name
}

/// The text that limits pictures to a height.
pub open spec fn height_limit(height: nat) -> Seq<char> {
    "[height<="@ + decimal(height) + "]"@
}

#[verifier::opaque]
spec fn is_one_piece(text: Seq<char>) -> bool {
    !text.contains('/')
}

proof fn lemma_no_slash(left: Seq<char>, right: Seq<char>)
    requires
        is_one_piece(left),
        is_one_piece(right),
    ensures
        is_one_piece(left + right),
{
    reveal(is_one_piece);
    let all = left + right;
    if all.contains('/') {
        let k = choose|k: int| 0 <= k < all.len() && all[k] == '/';
        if k < left.len() {
            assert(left[k] == '/');
        } else {
            assert(right[k - left.len()] == '/');
        }
    }
}

/// Where the user chooses a height, each of the formats that yt-dlp may take, which stand between
/// slashes, is limited to it, and to the largest height that is ever asked for; the formats of MP4
/// files come first.
pub proof fn law_limited_formats(height: u32)
    requires
        height > 0,
    ensures
        ({
            let limit = height_limit(
                if height <= 16384 {
                    height as nat
                } else {
                    16384
                },
            );
            split_at_slashes(selector(Some(height))) == seq![
                "bv*"@ + limit + "[ext=mp4]+ba[ext=m4a]"@,
                "b"@ + limit + "[ext=mp4]"@,
                "bv*"@ + limit + "+ba"@,
                "b"@ + limit,
            ]
        }),
{
    let n: nat = if height <= 16384 {
        height as nat
    } else {
        16384
    };
    lemma_selector_pieces(height, n);
    lemma_pieces_of(selector(Some(height)));
}

proof fn lemma_pieces_of(text: Seq<char>)
    ensures
        pieces_of(text) == split_at_slashes(text),
{
    reveal(pieces_of);
}

/// No format that yt-dlp may take is without the limit of height that the user chose.
pub proof fn law_every_format_is_limited(height: u32, i: int)
    requires
        0 < height <= 16384,
        0 <= i < split_at_slashes(selector(Some(height))).len(),
    ensures
        has_text(split_at_slashes(selector(Some(height)))[i], height_limit(height as nat)),
        split_at_slashes(selector(Some(height))).len() == 4,
{
    law_limited_formats(height);
    let limit = height_limit(height as nat);
    let parts = split_at_slashes(selector(Some(height)));
    lemma_four_hold(limit, "bv*"@, "[ext=mp4]+ba[ext=m4a]"@, "b"@, "[ext=mp4]"@, "+ba"@);
    lemma_one_of_four(
        parts,
        limit,
        "bv*"@ + limit + "[ext=mp4]+ba[ext=m4a]"@,
        "b"@ + limit + "[ext=mp4]"@,
        "bv*"@ + limit + "+ba"@,
        "b"@ + limit,
        i,
    );
}

proof fn lemma_one_of_four(
    parts: Seq<Seq<char>>,
    limit: Seq<char>,
    p1: Seq<char>,
    p2: Seq<char>,
    p3: Seq<char>,
    p4: Seq<char>,
    i: int,
)
    requires
        parts == seq![p1, p2, p3, p4],
        has_text(p1, limit),
        has_text(p2, limit),
        has_text(p3, limit),
        has_text(p4, limit),
        0 <= i < parts.len(),
    ensures
        has_text(parts[i], limit),
        parts.len() == 4,
{
}

proof fn lemma_selector_pieces(height: u32, n: nat)
    requires
        height > 0,
        n == if height <= 16384 {
            height as nat
        } else {
            16384
        },
    ensures
        pieces_of(selector(Some(height))) == seq![
            "bv*"@ + height_limit(n) + "[ext=mp4]+ba[ext=m4a]"@,
            "b"@ + height_limit(n) + "[ext=mp4]"@,
            "bv*"@ + height_limit(n) + "+ba"@,
            "b"@ + height_limit(n),
        ],
{
    lemma_format_texts();
    lemma_limit_has_no_slash(n);
    lemma_limited_formats(
        "bv*"@,
        "[ext=mp4]+ba[ext=m4a]"@,
        "b"@,
        "[ext=mp4]"@,
        "+ba"@,
        height_limit(n),
    );
}

/// Where the user chooses no height, no format is limited.
pub proof fn law_free_formats()
    ensures
        selector(Some(0u32)) == selector(None),
        split_at_slashes(selector(None)) == seq![
            "bv*[ext=mp4]+ba[ext=m4a]"@,
            "b[ext=mp4]"@,
            "bv*+ba"@,
            "b"@,
        ],
{
    lemma_format_texts();
    lemma_four_pieces("bv*[ext=mp4]+ba[ext=m4a]"@, "b[ext=mp4]"@, "bv*+ba"@, "b"@);
    reveal(pieces_of);
}

proof fn lemma_four_hold(
    limit: Seq<char>,
    picture: Seq<char>,
    pair: Seq<char>,
    both: Seq<char>,
    file: Seq<char>,
    sound: Seq<char>,
)
    ensures
        has_text(picture + limit + pair, limit),
        has_text(both + limit + file, limit),
        has_text(picture + limit + sound, limit),
        has_text(both + limit, limit),
{
    law_pieces_are_found(picture, limit, pair);
    law_pieces_are_found(both, limit, file);
    law_pieces_are_found(picture, limit, sound);
    law_pieces_are_found(both, limit, seq![]);
    assert(both + limit + seq![] =~= both + limit);
}

#[verifier::opaque]
spec fn pieces_of(text: Seq<char>) -> Seq<Seq<char>> {
    split_at_slashes(text)
}

proof fn lemma_limited_formats(
    picture: Seq<char>,
    pair: Seq<char>,
    both: Seq<char>,
    file: Seq<char>,
    sound: Seq<char>,
    limit: Seq<char>,
)
    requires
        is_one_piece(picture),
        is_one_piece(pair),
        is_one_piece(both),
        is_one_piece(file),
        is_one_piece(sound),
        is_one_piece(limit),
    ensures
        pieces_of(
            picture + limit + (pair + seq!['/'] + both) + limit + (file + seq!['/'] + picture)
                + limit + (sound + seq!['/'] + both) + limit,
        ) == seq![
            picture + limit + pair,
            both + limit + file,
            picture + limit + sound,
            both + limit,
        ],
{
    lemma_no_slash(picture, limit);
    lemma_no_slash(both, limit);
    lemma_no_slash(picture + limit, pair);
    lemma_no_slash(both + limit, file);
    lemma_no_slash(picture + limit, sound);
    lemma_four_pieces(picture + limit + pair, both + limit + file, picture + limit + sound, both
        + limit);
    lemma_regroup(picture, limit, pair, both, file, sound, seq!['/']);
}

proof fn lemma_format_texts()
    ensures
        "[ext=mp4]+ba[ext=m4a]/b"@ == "[ext=mp4]+ba[ext=m4a]"@ + seq!['/'] + "b"@,
        "[ext=mp4]/bv*"@ == "[ext=mp4]"@ + seq!['/'] + "bv*"@,
        "+ba/b"@ == "+ba"@ + seq!['/'] + "b"@,
        "bv*[ext=mp4]+ba[ext=m4a]/b[ext=mp4]/bv*+ba/b"@ == "bv*[ext=mp4]+ba[ext=m4a]"@ + seq!['/']
            + ("b[ext=mp4]"@ + seq!['/'] + ("bv*+ba"@ + seq!['/'] + "b"@)),
        is_one_piece("bv*"@),
        is_one_piece("b"@),
        is_one_piece("[ext=mp4]+ba[ext=m4a]"@),
        is_one_piece("[ext=mp4]"@),
        is_one_piece("+ba"@),
        is_one_piece("bv*[ext=mp4]+ba[ext=m4a]"@),
        is_one_piece("b[ext=mp4]"@),
        is_one_piece("bv*+ba"@),
{
    reveal(is_one_piece);
    reveal_strlit("bv*");
    reveal_strlit("b");
    reveal_strlit("[ext=mp4]+ba[ext=m4a]");
    reveal_strlit("[ext=mp4]+ba[ext=m4a]/b");
    reveal_strlit("[ext=mp4]");
    reveal_strlit("[ext=mp4]/bv*");
    reveal_strlit("+ba");
    reveal_strlit("+ba/b");
    reveal_strlit("bv*[ext=mp4]+ba[ext=m4a]/b[ext=mp4]/bv*+ba/b");
    reveal_strlit("bv*[ext=mp4]+ba[ext=m4a]");
    reveal_strlit("b[ext=mp4]");
    reveal_strlit("bv*+ba");
    assert("[ext=mp4]+ba[ext=m4a]/b"@ =~= "[ext=mp4]+ba[ext=m4a]"@ + seq!['/'] + "b"@);
    assert("[ext=mp4]/bv*"@ =~= "[ext=mp4]"@ + seq!['/'] + "bv*"@);
    assert("+ba/b"@ =~= "+ba"@ + seq!['/'] + "b"@);
    assert("bv*[ext=mp4]+ba[ext=m4a]/b[ext=mp4]/bv*+ba/b"@ =~= "bv*[ext=mp4]+ba[ext=m4a]"@ + seq![
        '/',
    ] + ("b[ext=mp4]"@ + seq!['/'] + ("bv*+ba"@ + seq!['/'] + "b"@)));
}

proof fn lemma_limit_has_no_slash(n: nat)
    ensures
        is_one_piece(height_limit(n)),
{
    reveal_strlit("[height<=");
    reveal_strlit("]");
    law_decimal(n);
    reveal(is_one_piece);
    assert(is_one_piece(decimal(n)));
    lemma_no_slash("[height<="@, decimal(n));
    lemma_no_slash("[height<="@ + decimal(n), "]"@);
}

proof fn lemma_regroup(
    picture: Seq<char>,
    limit: Seq<char>,
    pair: Seq<char>,
    both: Seq<char>,
    file: Seq<char>,
    sound: Seq<char>,
    slash: Seq<char>,
)
    ensures
        picture + limit + (pair + slash + both) + limit + (file + slash + picture) + limit + (sound
            + slash + both) + limit == (picture + limit + pair) + slash + ((both + limit + file)
            + slash + ((picture + limit + sound) + slash + (both + limit))),
{
    assert(picture + limit + (pair + slash + both) + limit + (file + slash + picture) + limit + (
    sound + slash + both) + limit =~= (picture + limit + pair) + slash + ((both + limit + file)
        + slash + ((picture + limit + sound) + slash + (both + limit))));
}

proof fn lemma_four_pieces(p1: Seq<char>, p2: Seq<char>, p3: Seq<char>, p4: Seq<char>)
    requires
        is_one_piece(p1),
        is_one_piece(p2),
        is_one_piece(p3),
        is_one_piece(p4),
    ensures
        pieces_of(p1 + seq!['/'] + (p2 + seq!['/'] + (p3 + seq!['/'] + p4))) == seq![
            p1,
            p2,
            p3,
            p4,
        ],
{
    reveal(is_one_piece);
    reveal(pieces_of);
    law_split_at_slashes(p4, seq![]);
    law_split_at_slashes(p3, p4);
    law_split_at_slashes(p2, p3 + seq!['/'] + p4);
    law_split_at_slashes(p1, p2 + seq!['/'] + (p3 + seq!['/'] + p4));
    assert(seq![p1] + (seq![p2] + (seq![p3] + seq![p4])) =~= seq![p1, p2, p3, p4]);
}

/// The height that the user chose is the one that yt-dlp is asked for: the formats that the option
/// `--format` names are all limited to it.
pub proof fn law_chosen_height(
    url: Seq<char>,
    height: u32,
    node: Option<Seq<char>>,
    ffmpeg: Option<(Seq<char>, Option<Seq<char>>)>,
    browser: Option<Seq<char>>,
    output_dir: Option<Seq<char>>,
    referer: Option<Seq<char>>,
)
    requires
        0 < height <= 16384,
    ensures
        exists|formats: Seq<char>| #[trigger]
            is_option_value(
                download_arguments(url, Some(height), node, ffmpeg, browser, output_dir, referer),
                "--format"@,
                formats,
            ) && split_at_slashes(formats).len() == 4 && forall|i: int|
                0 <= i < split_at_slashes(formats).len() ==> has_text(
                    #[trigger] split_at_slashes(formats)[i],
                    height_limit(height as nat),
                ),
{
    let args = download_arguments(url, Some(height), node, ffmpeg, browser, output_dir, referer);
    let formats = selector(Some(height));
    lemma_format_option(url, Some(height), node, ffmpeg, browser, output_dir, referer);
    assert(is_option_value(args, "--format"@, formats));
    law_limited_formats(height);
    assert forall|i: int| 0 <= i < split_at_slashes(formats).len() implies has_text(
        #[trigger] split_at_slashes(formats)[i],
        height_limit(height as nat),
    ) by {
        law_every_format_is_limited(height, i);
    }
}

proof fn lemma_format_option(
    url: Seq<char>,
    max_height: Option<u32>,
    node: Option<Seq<char>>,
    ffmpeg: Option<(Seq<char>, Option<Seq<char>>)>,
    browser: Option<Seq<char>>,
    output_dir: Option<Seq<char>>,
    referer: Option<Seq<char>>,
)
    ensures
        ({
            let args = download_arguments(
                url,
                max_height,
                node,
                ffmpeg,
                browser,
                output_dir,
                referer,
            );
            &&& is_option_value(args, "--format"@, args[20])
            &&& args[20] == selector(max_height)
        }),
{
    let args = download_arguments(url, max_height, node, ffmpeg, browser, output_dir, referer);
    let fixed = fixed_arguments(max_height);
    assert(forall|k: int| 0 <= k < fixed.len() ==> args[k] == fixed[k]);
    reveal_strlit("--format");
    reveal_strlit("--newline");
    reveal_strlit("--no-color");
    reveal_strlit("--ignore-config");
    reveal_strlit("--windows-filenames");
    reveal_strlit("--no-playlist");
    reveal_strlit("--continue");
    reveal_strlit("--part");
    reveal_strlit("--retries");
    reveal_strlit("10");
    reveal_strlit("--fragment-retries");
    reveal_strlit("--file-access-retries");
    reveal_strlit("--retry-sleep");
    reveal_strlit("fragment:exp=1:20");
    reveal_strlit("--socket-timeout");
    reveal_strlit("30");
    reveal_strlit("--concurrent-fragments");
    reveal_strlit("4");
    assert("--format"@.len() == 8 && "--format"@[2] == 'f');
    assert("--newline"@.len() == 9 && "--no-color"@.len() == 10 && "--part"@.len() == 6);
    assert(fixed[0] != "--format"@);
    assert(fixed[1] != "--format"@);
    assert(fixed[2] != "--format"@);
    assert(fixed[3] != "--format"@);
    assert(fixed[4] != "--format"@);
    assert(fixed[5] != "--format"@);
    assert(fixed[6] != "--format"@);
    assert(fixed[7] != "--format"@);
    assert(fixed[8] != "--format"@);
    assert(fixed[9] != "--format"@);
    assert(fixed[10] != "--format"@);
    assert(fixed[11] != "--format"@);
    assert(fixed[12] != "--format"@);
    assert(fixed[13] != "--format"@);
    assert(fixed[14] != "--format"@);
    assert(fixed[15] != "--format"@);
    assert(fixed[16] != "--format"@);
    assert(fixed[17] != "--format"@);
    assert(fixed[18] != "--format"@);
    assert(fixed[19] == "--format"@);
    assert(fixed[20] == selector(max_height));
    assert(args[19] == "--format"@);
}

proof fn lemma_option_within(
    before: Seq<Seq<char>>,
    args: Seq<Seq<char>>,
    after: Seq<Seq<char>>,
    k: int,
)
    requires
        0 <= k < args.len() - 1,
    ensures
        has_option(before + args + after, args[k], args[k + 1]),
{
    reveal(has_option);
    let all = before + args + after;
    assert(all[before.len() + k] == args[k]);
    assert(all[before.len() + k + 1] == args[k + 1]);
}

/// How many arguments an option and its value are, where they are given.
pub open spec fn two_if(given: bool) -> nat {
    if given {
        2
    } else {
        0
    }
}

/// yt-dlp is called with every setting of the download, whatever the user asks for.
pub proof fn law_download_settings(
    url: Seq<char>,
    max_height: Option<u32>,
    node: Option<Seq<char>>,
    ffmpeg: Option<(Seq<char>, Option<Seq<char>>)>,
    browser: Option<Seq<char>>,
    output_dir: Option<Seq<char>>,
    referer: Option<Seq<char>>,
)
    ensures
        ({
            let args = download_arguments(
                url,
                max_height,
                node,
                ffmpeg,
                browser,
                output_dir,
                referer,
            );
            &&& args.contains("--newline"@)
            &&& args.contains("--no-color"@)
            &&& args.contains("--windows-filenames"@)
            &&& args.contains("--continue"@)
            &&& args.contains("--part"@)
            &&& has_option(args, "--retries"@, "10"@)
            &&& has_option(args, "--fragment-retries"@, "10"@)
            &&& has_option(args, "--file-access-retries"@, "10"@)
            &&& has_option(args, "--retry-sleep"@, "fragment:exp=1:20"@)
            &&& has_option(args, "--socket-timeout"@, "30"@)
            &&& has_option(args, "--concurrent-fragments"@, "4"@)
            &&& has_option(args, "--merge-output-format"@, "mp4"@)
            &&& has_option(args, "--print"@, "after_move:[download] Final file: %(filepath)s"@)
            &&& has_option(args, "-o"@, "%(title).200B [%(id)s].%(ext)s"@)
        }),
{
    let r = runtime_args(node);
    let f = ffmpeg_args(ffmpeg);
    let b = browser_args(browser);
    let o = folder_args(output_dir);
    let p = referer_args(referer);
    let args = download_arguments(url, max_height, node, ffmpeg, browser, output_dir, referer);
    let tail = r + f + b + o + p + seq![url];
    lemma_fixed_options(max_height, tail);
    assert(args =~= fixed_arguments(max_height) + tail);
}

/// yt-dlp is called with what was found and chosen: the runtime, the directory of ffmpeg, the
/// browser's cookies, the output folder and the page that the link comes from. The address comes
/// last, and nothing else is in the call.
pub proof fn law_download_choices(
    url: Seq<char>,
    max_height: Option<u32>,
    node: Option<Seq<char>>,
    ffmpeg: Option<(Seq<char>, Option<Seq<char>>)>,
    browser: Option<Seq<char>>,
    output_dir: Option<Seq<char>>,
    referer: Option<Seq<char>>,
)
    ensures
        ({
            let args = download_arguments(
                url,
                max_height,
                node,
                ffmpeg,
                browser,
                output_dir,
                referer,
            );
            let named = referer matches Some(page) && trimmed(page).len() > 0;
            &&& node matches Some(path) ==> has_option(args, "--js-runtimes"@, "node:"@ + path)
            &&& ffmpeg matches Some((_, Some(directory))) ==> has_option(
                args,
                "--ffmpeg-location"@,
                directory,
            )
            &&& ffmpeg matches Some((program, None)) ==> has_option(
                args,
                "--ffmpeg-location"@,
                program,
            )
            &&& browser matches Some(name) ==> has_option(args, "--cookies-from-browser"@, name)
            &&& output_dir matches Some(path) ==> has_option(args, "-P"@, path)
            &&& referer matches Some(page) ==> trimmed(page).len() > 0 ==> has_option(
                args,
                "--referer"@,
                trimmed(page),
            )
            &&& args.len() == 29 + two_if(node is Some) + two_if(ffmpeg is Some) + two_if(
                browser is Some,
            ) + two_if(output_dir is Some) + two_if(named)
            &&& args.last() == url
        }),
{
    let r = runtime_args(node);
    let f = ffmpeg_args(ffmpeg);
    let b = browser_args(browser);
    let o = folder_args(output_dir);
    let p = referer_args(referer);
    lemma_five_parts(fixed_arguments(max_height), r, f, b, o, p, url);
}

proof fn lemma_fixed_options(max_height: Option<u32>, tail: Seq<Seq<char>>)
    ensures
        ({
            let args = fixed_arguments(max_height) + tail;
            &&& args.contains("--newline"@)
            &&& args.contains("--no-color"@)
            &&& args.contains("--windows-filenames"@)
            &&& args.contains("--continue"@)
            &&& args.contains("--part"@)
            &&& has_option(args, "--retries"@, "10"@)
            &&& has_option(args, "--fragment-retries"@, "10"@)
            &&& has_option(args, "--file-access-retries"@, "10"@)
            &&& has_option(args, "--retry-sleep"@, "fragment:exp=1:20"@)
            &&& has_option(args, "--socket-timeout"@, "30"@)
            &&& has_option(args, "--concurrent-fragments"@, "4"@)
            &&& has_option(args, "--merge-output-format"@, "mp4"@)
            &&& has_option(args, "--print"@, "after_move:[download] Final file: %(filepath)s"@)
            &&& has_option(args, "-o"@, "%(title).200B [%(id)s].%(ext)s"@)
        }),
{
    reveal(has_option);
    let args = fixed_arguments(max_height) + tail;
    assert(args[0] == "--newline"@ && args[1] == "--no-color"@ && args[3]
        == "--windows-filenames"@);
    assert(args[5] == "--continue"@ && args[6] == "--part"@);
    assert(args[7] == "--retries"@ && args[8] == "10"@);
    assert(args[9] == "--fragment-retries"@ && args[10] == "10"@);
    assert(args[11] == "--file-access-retries"@ && args[12] == "10"@);
    assert(args[13] == "--retry-sleep"@ && args[14] == "fragment:exp=1:20"@);
    assert(args[15] == "--socket-timeout"@ && args[16] == "30"@);
    assert(args[17] == "--concurrent-fragments"@ && args[18] == "4"@);
    assert(args[21] == "--merge-output-format"@ && args[22] == "mp4"@);
    assert(args[24] == "--print"@ && args[25]
        == "after_move:[download] Final file: %(filepath)s"@);
    assert(args[26] == "-o"@ && args[27] == "%(title).200B [%(id)s].%(ext)s"@);
}

proof fn lemma_five_parts(
    fixed: Seq<Seq<char>>,
    r: Seq<Seq<char>>,
    f: Seq<Seq<char>>,
    b: Seq<Seq<char>>,
    o: Seq<Seq<char>>,
    p: Seq<Seq<char>>,
    url: Seq<char>,
)
    ensures
        ({
            let args = fixed + r + f + b + o + p + seq![url];
            &&& r.len() > 1 ==> has_option(args, r[0], r[1])
            &&& f.len() > 1 ==> has_option(args, f[0], f[1])
            &&& b.len() > 1 ==> has_option(args, b[0], b[1])
            &&& o.len() > 1 ==> has_option(args, o[0], o[1])
            &&& p.len() > 1 ==> has_option(args, p[0], p[1])
        }),
{
    let args = fixed + r + f + b + o + p + seq![url];
    if r.len() > 1 {
        lemma_option_within(fixed, r, f + b + o + p + seq![url], 0);
        assert(args =~= fixed + r + (f + b + o + p + seq![url]));
    }
    if f.len() > 1 {
        lemma_option_within(fixed + r, f, b + o + p + seq![url], 0);
        assert(args =~= fixed + r + f + (b + o + p + seq![url]));
    }
    if b.len() > 1 {
        lemma_option_within(fixed + r + f, b, o + p + seq![url], 0);
        assert(args =~= fixed + r + f + b + (o + p + seq![url]));
    }
    if o.len() > 1 {
        lemma_option_within(fixed + r + f + b, o, p + seq![url], 0);
        assert(args =~= fixed + r + f + b + o + (p + seq![url]));
    }
    if p.len() > 1 {
        lemma_option_within(fixed + r + f + b + o, p, seq![url], 0);
    }
}

/// The line that yt-dlp is told to print for a finished file is read back as that file: what stands
/// for the path in the template is the file of the news.
pub proof fn law_printed_lines_are_read(id: Seq<char>, max_height: Option<u32>, path: Seq<char>)
    requires
        is_plain_path(path),
    ensures
        exists|lead: Seq<char>|
            has_option(
                fixed_arguments(max_height),
                "--print"@,
                #[trigger] ("after_move:"@ + lead + "%(filepath)s"@),
            ) && (line_news(id, lead + path) matches Some(update) && update.file == Some(path)
                && update.status == "completed"@),
{
    reveal(has_option);
    let lead = "[download] Final file: "@;
    let fixed = fixed_arguments(max_height);
    law_final_file(id, path);
    reveal_strlit("after_move:");
    reveal_strlit("[download] Final file: ");
    reveal_strlit("%(filepath)s");
    reveal_strlit("after_move:[download] Final file: %(filepath)s");
    assert("after_move:"@ + lead + "%(filepath)s"@
        =~= "after_move:[download] Final file: %(filepath)s"@);
    assert(fixed[24] == "--print"@ && fixed[25] == "after_move:"@ + lead + "%(filepath)s"@);
}

/// A job ends as its process did: completed where the process succeeded; cancelled where the user
/// stopped it; and else failed, with what the process wrote of it, or why it could not be started
/// or awaited.
pub proof fn law_job_ends(id: Seq<char>, outcome: JobOutcome, stderr_message: Option<Seq<char>>)
    ensures
        ({
            let end = outcome_news(id, outcome, stderr_message);
            &&& end.id == id
            &&& end.speed is None && end.eta is None && end.file is None
            &&& match outcome {
                JobOutcome::Exited { success: true, .. } => {
                    &&& end.status == "completed"@
                    &&& end.progress == Some("100"@)
                    &&& end.message == Some("Descarga completa."@)
                },
                JobOutcome::Exited { success: false, status } => {
                    &&& end.status == "failed"@
                    &&& end.progress is None
                    &&& stderr_message is Some ==> end.message == stderr_message
                    &&& stderr_message is None ==> end.message == Some(
                        "yt-dlp terminó con código "@ + status@,
                    )
                },
                JobOutcome::Cancelled => {
                    &&& end.status == "cancelled"@
                    &&& end.progress is None
                    &&& end.message == Some("Descarga detenida."@)
                },
                JobOutcome::NotStarted { error } => {
                    &&& end.status == "failed"@
                    &&& end.progress is None
                    &&& end.message == Some("No pude iniciar yt-dlp: "@ + error@)
                },
                JobOutcome::Lost { error } => {
                    &&& end.status == "failed"@
                    &&& end.progress is None
                    &&& end.message == Some("Error esperando a yt-dlp: "@ + error@)
                },
            }
        }),
{
}

/// An error line is one that begins with the word or holds it, however it is written; a warning
/// line begins with its word, and is no error line.
pub proof fn law_error_lines(line: Seq<char>)
    ensures
        has_prefix(line, "ERROR:"@) ==> is_error_line(line),
        has_text(ascii_lowered(line), "error:"@) ==> is_error_line(line),
        is_error_line(line) ==> has_prefix(line, "ERROR:"@) || has_text(
            ascii_lowered(line),
            "error:"@,
        ),
        is_warning_line(line) <==> has_prefix(line, "WARNING:"@) && !is_error_line(line),
{
}

} // verus!
