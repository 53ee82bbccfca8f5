//! The helper programs: where they are found, what they report, and the arguments they get.

use vstd::prelude::*;

use crate::locate::ffmpeg_directory;
use crate::text::{
    ascii_lowered, first_line, first_line_of, is_blank, is_white, is_word, law_first_line,
    law_trimming_keeps_the_core, law_words, same_text, split_whitespace, to_ascii_lowercase, trim,
    trimmed, words,
};
use crate::unicode::{decode_lossy, lossy_text};

verus! {

/// Appends one argument.
pub fn push_arg(args: &mut Vec<String>, arg: &str)
    ensures
        final(args).deep_view() == old(args).deep_view().push(arg@),
{
    args.push(arg.to_string());
    assert(args.deep_view() =~= old(args).deep_view().push(arg@));
}

/// The arguments that name the JavaScript runtime.
pub open spec fn runtime_args(node: Option<Seq<char>>) -> Seq<Seq<char>> {
    match node {
        Some(path) => seq!["--js-runtimes"@, "node:"@ + path],
        None => seq![],
    }
}

/// Names the JavaScript runtime, where there is one.
pub fn append_runtime_args(args: &mut Vec<String>, node: Option<&str>)
    ensures
        final(args).deep_view() == old(args).deep_view() + runtime_args(node.deep_view()),
{
    if let Some(path) = node {
        push_arg(args, "--js-runtimes");
        let mut value = "node:".to_string();
        value.append(path);
        push_arg(args, value.as_str());
    }
    assert(args.deep_view() =~= old(args).deep_view() + runtime_args(node.deep_view()));
}

/// The arguments that tell where ffmpeg is: in the directory that holds the program, or at the
/// program itself where it has no parent.
pub open spec fn ffmpeg_args(ffmpeg: Option<(Seq<char>, Option<Seq<char>>)>) -> Seq<Seq<char>> {
    match ffmpeg {
        Some((_, Some(directory))) => seq!["--ffmpeg-location"@, directory],
        Some((program, None)) => seq!["--ffmpeg-location"@, program],
        None => seq![],
    }
}

/// Tells where ffmpeg is, where it was found: given are the program and the directory that holds
/// it, if any does.
pub fn append_ffmpeg_args(args: &mut Vec<String>, ffmpeg: Option<(&str, Option<&str>)>)
    ensures
        final(args).deep_view() == old(args).deep_view() + ffmpeg_args(ffmpeg.deep_view()),
{
    if let Some((program, parent)) = ffmpeg {
        push_arg(args, "--ffmpeg-location");
        push_arg(args, ffmpeg_directory(program, parent));
    }
    assert(args.deep_view() =~= old(args).deep_view() + ffmpeg_args(ffmpeg.deep_view()));
}

/// The browsers whose cookies may be used.
pub open spec fn is_cookie_browser(name: Seq<char>) -> bool {
    name == "brave"@ || name == "chrome"@ || name == "edge"@ || name == "firefox"@
}

/// The browser meant by a user's choice: none, one of the known ones, or a mistake.
pub open spec fn browser_choice(browser: Option<Seq<char>>) -> Result<Option<Seq<char>>, ()> {
    match browser {
        None => Ok(None),
        Some(text) => {
            let name = ascii_lowered(trimmed(text));
            if trimmed(text).len() == 0 || name == "none"@ {
                Ok(None)
            } else if is_cookie_browser(name) {
                Ok(Some(name))
            } else {
                Err(())
            }
        },
    }
}

/// The arguments that take over a browser's cookies.
pub open spec fn browser_args(name: Option<Seq<char>>) -> Seq<Seq<char>> {
    match name {
        Some(name) => seq!["--cookies-from-browser"@, name],
        None => seq![],
    }
}

/// What a user is told of a browser that is not known.
pub open spec fn unknown_browser_message() -> Seq<char> {
    "Navegador de cookies no compatible."@
}

/// Takes over the cookies of the browser that the user chose, if it is a known one.
pub fn append_browser_args(args: &mut Vec<String>, browser: Option<&str>) -> (result: Result<
    (),
    String,
>)
    ensures
        match browser_choice(browser.deep_view()) {
            Ok(name) => {
                &&& result is Ok
                &&& final(args).deep_view() == old(args).deep_view() + browser_args(name)
            },
            Err(_) => {
                &&& result matches Err(message) && message@ == unknown_browser_message()
                &&& *final(args) == *old(args)
            },
        },
{
    let browser = match browser {
        Some(text) => trim(text),
        None => {
            assert(args.deep_view() =~= old(args).deep_view() + browser_args(None));
            return Ok(());
        },
    };
    let normalized = to_ascii_lowercase(browser.as_str());
    if browser.as_str().is_empty() || same_text(normalized.as_str(), "none") {
        assert(args.deep_view() =~= old(args).deep_view() + browser_args(None));
        return Ok(());
    }
    if !(same_text(normalized.as_str(), "brave") || same_text(normalized.as_str(), "chrome")
        || same_text(normalized.as_str(), "edge") || same_text(normalized.as_str(), "firefox")) {
        return Err("Navegador de cookies no compatible.".to_string());
    }
    push_arg(args, "--cookies-from-browser");
    push_arg(args, normalized.as_str());
    assert(args.deep_view() =~= old(args).deep_view() + browser_args(Some(normalized@)));
    Ok(())
}

/// Whatever a user asks for, cookies are taken from no browser but the known ones.
pub proof fn law_cookies_only_from_known_browsers(browser: Option<Seq<char>>)
    ensures
        browser_choice(browser) matches Ok(name) ==> {
            ||| browser_args(name) == Seq::<Seq<char>>::empty()
            ||| browser_args(name).len() == 2 && is_cookie_browser(browser_args(name)[1])
        },
{
}

/// What a process said went wrong, or `fallback` where it said nothing.
pub open spec fn error_or(error: Seq<char>, fallback: Seq<char>) -> Seq<char> {
    if trimmed(error).len() == 0 {
        fallback
    } else {
        trimmed(error)
    }
}

/// What a process said went wrong, or `fallback` where it said nothing.
pub fn clean_error(error: &str, fallback: &str) -> (message: String)
    ensures
        message@ == error_or(error@, fallback@),
{
    let cleaned = trim(error);
    if cleaned.as_str().is_empty() {
        fallback.to_string()
    } else {
        cleaned
    }
}

/// What a process wrote to its error stream, or `fallback` where it wrote nothing.
pub fn clean_process_error(stderr: &[u8], fallback: &str) -> (message: String)
    ensures
        message@ == error_or(lossy_text(stderr@), fallback@),
{
    clean_error(decode_lossy(stderr).as_str(), fallback)
}

/// What is known of one helper program.
#[derive(Debug)]
pub struct ToolProbe {
    pub available: bool,
    pub path: Option<String>,
    pub version: Option<String>,
    pub message: Option<String>,
}

/// What is known of one helper program.
#[verifier::ext_equal]
pub struct ToolProbeView {
    pub available: bool,
    pub path: Option<Seq<char>>,
    pub version: Option<Seq<char>>,
    pub message: Option<Seq<char>>,
}

impl View for ToolProbe {
    type V = ToolProbeView;

    open spec fn view(&self) -> ToolProbeView {
        ToolProbeView {
            available: self.available,
            path: self.path.deep_view(),
            version: self.version.deep_view(),
            message: self.message.deep_view(),
        }
    }
}

/// What became of asking a helper program for its version.
#[derive(Debug)]
pub enum ToolRun {
    /// The program was not found.
    Missing,
    /// The program could not be run.
    Failed { path: String, error: String },
    /// The program ran to its end.
    Finished { path: String, success: bool, stdout: Vec<u8>, stderr: Vec<u8> },
}

/// The version in a program's answer: the first word of its first line.
pub open spec fn version_in(answer: Seq<char>) -> Option<Seq<char>> {
    match first_line(answer) {
        Some(line) => if words(line).len() > 0 {
            Some(words(line)[0])
        } else {
            Some(seq![])
        },
        None => None,
    }
}

/// The version in a program's answer: the first word of its first line.
pub fn version_of(answer: &str) -> (version: Option<String>)
    ensures
        version.deep_view() == version_in(answer@),
{
    match first_line_of(answer) {
        Some(line) => {
            let parts = split_whitespace(line.as_str());
            assert(parts.deep_view().len() == parts@.len());
            if parts.len() > 0 {
                Some(parts[0].clone())
            } else {
                Some(String::new())
            }
        },
        None => None,
    }
}

/// What a version request tells of a helper program.
pub open spec fn probe_of_run(run: ToolRun) -> ToolProbeView {
    match run {
        ToolRun::Missing => ToolProbeView {
            available: false,
            path: None,
            version: None,
            message: Some("No encontrado."@),
        },
        ToolRun::Failed { path, error } => ToolProbeView {
            available: false,
            path: Some(path@),
            version: None,
            message: Some(error@),
        },
        ToolRun::Finished { path, success, stdout, stderr } => if success {
            ToolProbeView {
                available: true,
                path: Some(path@),
                version: version_in(lossy_text(stdout@)),
                message: None,
            }
        } else {
            ToolProbeView {
                available: false,
                path: Some(path@),
                version: None,
                message: Some(
                    error_or(lossy_text(stderr@), "No pude consultar versión."@),
                ),
            }
        },
    }
}

/// What a version request tells of a helper program.
pub fn probe_command(run: ToolRun) -> (probe: ToolProbe)
    ensures
        probe@ == probe_of_run(run),
{
    match run {
        ToolRun::Missing => ToolProbe {
            available: false,
            path: None,
            version: None,
            message: Some("No encontrado.".to_string()),
        },
        ToolRun::Failed { path, error } => ToolProbe {
            available: false,
            path: Some(path),
            version: None,
            message: Some(error),
        },
        ToolRun::Finished { path, success, stdout, stderr } => {
            if success {
                let version = version_of(decode_lossy(stdout.as_slice()).as_str());
                ToolProbe { available: true, path: Some(path), version, message: None }
            } else {
                let message = clean_process_error(stderr.as_slice(), "No pude consultar versión.");
                ToolProbe {
                    available: false,
                    path: Some(path),
                    version: None,
                    message: Some(message),
                }
            }
        },
    }
}

/// The arguments hold an option, followed by its value.
#[verifier::opaque]
pub open spec fn has_option(args: Seq<Seq<char>>, name: Seq<char>, value: Seq<char>) -> bool {
    exists|k: int| 0 <= k < args.len() - 1 && #[trigger] args[k] == name && args[k + 1] == value
}

/// Cookies are taken from a known browser, however its name is written and whatever white space
/// stands around it; from none where the user names none; and any other name is refused.
pub proof fn law_browsers(left: Seq<char>, name: Seq<char>, right: Seq<char>)
    requires
        is_blank(left),
        is_blank(right),
        name.len() > 0 ==> !is_white(name[0]) && !is_white(name.last()),
    ensures
        ({
            let small = ascii_lowered(name);
            let choice = browser_choice(Some(left + name + right));
            let known = small == "brave"@ || small == "chrome"@ || small == "edge"@ || small
                == "firefox"@;
            &&& known ==> (choice matches Ok(browser) && browser_args(browser) == seq![
                "--cookies-from-browser"@,
                small,
            ])
            &&& name.len() == 0 || small == "none"@ ==> (choice matches Ok(browser)
                && browser_args(browser).len() == 0)
            &&& !known && name.len() > 0 && small != "none"@ ==> choice is Err
                && unknown_browser_message() == "Navegador de cookies no compatible."@
        }),
        browser_choice(None) matches Ok(browser) && browser_args(browser).len() == 0,
{
    law_trimming_keeps_the_core(left, name, right);
    reveal_strlit("none");
    reveal_strlit("brave");
    reveal_strlit("chrome");
    reveal_strlit("edge");
    reveal_strlit("firefox");
    assert("none"@[0] == 'n' && "edge"@[0] == 'e');
    assert(ascii_lowered(name).len() == name.len());
}

/// What a process wrote of an error is told without the white space around it, and the given text
/// where it wrote nothing.
pub proof fn law_errors(left: Seq<char>, error: Seq<char>, right: Seq<char>, fallback: Seq<char>)
    requires
        is_blank(left),
        is_blank(right),
        error.len() > 0 ==> !is_white(error[0]) && !is_white(error.last()),
    ensures
        error_or(left + error + right, fallback) == if error.len() > 0 {
            error
        } else {
            fallback
        },
{
    law_trimming_keeps_the_core(left, error, right);
}

/// The version is the first word of the first line of the answer.
pub proof fn law_versions(version: Seq<char>, more: Seq<char>, rest: Seq<char>)
    requires
        is_word(version),
        !more.contains('\n'),
        more.len() > 0 ==> more.last() != '\r',
    ensures
        version_in(version + " "@ + more + "\n"@ + rest) == Some(version),
        version_in(version + "\n"@ + rest) == Some(version),
        version_in(version) == Some(version),
{
    reveal_strlit(" ");
    assert(" "@ =~= seq![' ']);
    assert(!version.contains('\n')) by {
        if version.contains('\n') {
            let k = choose|k: int| 0 <= k < version.len() && version[k] == '\n';
            assert(is_white(version[k]));
        }
    }
    assert(version.last() != '\r') by {
        assert(!is_white(version[version.len() - 1]));
    }
    let line = version + " "@ + more;
    assert(!line.contains('\n')) by {
        if line.contains('\n') {
            let k = choose|k: int| 0 <= k < line.len() && line[k] == '\n';
            if k < version.len() {
                assert(version[k] == '\n');
            } else if k > version.len() {
                assert(more[k - version.len() - 1] == '\n');
            }
        }
    }
    law_first_line(line, rest);
    law_words(version, ' ', more);
    law_first_line(version, rest);
}

/// A tool is available where its call succeeds, and then tells its version; else it is told why it
/// is not: it was not found, could not be run, or wrote of an error.
pub proof fn law_tool_reports(run: ToolRun)
    ensures
        ({
            let report = probe_of_run(run);
            match run {
                ToolRun::Missing => {
                    &&& !report.available
                    &&& report.path is None
                    &&& report.version is None
                    &&& report.message == Some("No encontrado."@)
                },
                ToolRun::Failed { path, error } => {
                    &&& !report.available
                    &&& report.path == Some(path@)
                    &&& report.version is None
                    &&& report.message == Some(error@)
                },
                ToolRun::Finished { path, success, stdout, stderr } => {
                    &&& report.available == success
                    &&& report.path == Some(path@)
                    &&& success ==> report.version == version_in(lossy_text(stdout@))
                        && report.message is None
                    &&& !success ==> report.version is None && report.message == Some(
                        if trimmed(lossy_text(stderr@)).len() > 0 {
                            trimmed(lossy_text(stderr@))
                        } else {
                            "No pude consultar versión."@
                        },
                    )
                },
            }
        }),
{
}

} // verus!
