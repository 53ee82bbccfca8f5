use descargador::tools::{
    append_browser_args, append_ffmpeg_args, append_runtime_args, clean_process_error,
    probe_command, version_of, ToolRun,
};

#[test]
fn browser_arguments_are_allowlisted() {
    let mut args = Vec::new();
    append_browser_args(&mut args, Some("edge")).unwrap();
    assert_eq!(args, ["--cookies-from-browser", "edge"]);
    assert!(append_browser_args(&mut args, Some("unknown")).is_err());
}

#[test]
fn a_known_browser_is_named_in_small_letters() {
    let mut args = vec!["first".to_string()];
    append_browser_args(&mut args, Some("  FireFox ")).unwrap();
    assert_eq!(args, ["first", "--cookies-from-browser", "firefox"]);
}

#[test]
fn no_browser_adds_nothing() {
    let mut args = Vec::new();
    for browser in [None, Some(""), Some(" \t "), Some("none"), Some("NONE"), Some(" None ")] {
        append_browser_args(&mut args, browser).unwrap();
    }
    assert!(args.is_empty());
}

#[test]
fn an_unknown_browser_is_refused_and_adds_nothing() {
    let mut args = vec!["first".to_string()];
    let error = append_browser_args(&mut args, Some("opera")).unwrap_err();
    assert_eq!(error, "Navegador de cookies no compatible.");
    assert_eq!(args, ["first"]);
}

#[test]
fn tools_that_were_found_are_named() {
    let mut args = Vec::new();
    append_runtime_args(&mut args, Some("/usr/bin/node"));
    append_ffmpeg_args(&mut args, Some(("/opt/ffmpeg/bin/ffmpeg", Some("/opt/ffmpeg/bin"))));
    assert_eq!(
        args,
        ["--js-runtimes", "node:/usr/bin/node", "--ffmpeg-location", "/opt/ffmpeg/bin"]
    );
    append_runtime_args(&mut args, None);
    append_ffmpeg_args(&mut args, None);
    assert_eq!(args.len(), 4);
    append_ffmpeg_args(&mut args, Some(("ffmpeg", None)));
    assert_eq!(args[4..], ["--ffmpeg-location", "ffmpeg"]);
}

#[test]
fn an_error_is_what_the_process_wrote() {
    assert_eq!(clean_process_error(b"  ERROR: nothing there \n", "fallback"), "ERROR: nothing there");
    assert_eq!(clean_process_error(b" \r\n ", "fallback"), "fallback");
    assert_eq!(clean_process_error(b"", "fallback"), "fallback");
    assert_eq!(clean_process_error(&[b'a', 0xff, b'b'], "fallback"), "a\u{fffd}b");
}

#[test]
fn a_version_is_the_first_word_of_the_first_line() {
    assert_eq!(version_of("2025.01.15\n").as_deref(), Some("2025.01.15"));
    assert_eq!(version_of("ffmpeg version 7.1\r\nbuilt").as_deref(), Some("ffmpeg"));
    assert_eq!(version_of("   \nx").as_deref(), Some(""));
    assert_eq!(version_of("\n").as_deref(), Some(""));
    assert_eq!(version_of(""), None);
}

#[test]
fn a_missing_tool_is_reported() {
    let probe = probe_command(ToolRun::Missing);
    assert!(!probe.available);
    assert_eq!(probe.path, None);
    assert_eq!(probe.version, None);
    assert_eq!(probe.message.as_deref(), Some("No encontrado."));
}

#[test]
fn a_tool_that_answers_is_available() {
    let probe = probe_command(ToolRun::Finished {
        path: "/usr/bin/yt-dlp".to_string(),
        success: true,
        stdout: b"2025.01.15\n".to_vec(),
        stderr: b"noise".to_vec(),
    });
    assert!(probe.available);
    assert_eq!(probe.path.as_deref(), Some("/usr/bin/yt-dlp"));
    assert_eq!(probe.version.as_deref(), Some("2025.01.15"));
    assert_eq!(probe.message, None);
}

#[test]
fn a_tool_that_fails_is_not_available() {
    let quiet = probe_command(ToolRun::Finished {
        path: "node".to_string(),
        success: false,
        stdout: b"v22".to_vec(),
        stderr: Vec::new(),
    });
    assert!(!quiet.available);
    assert_eq!(quiet.path.as_deref(), Some("node"));
    assert_eq!(quiet.version, None);
    assert_eq!(quiet.message.as_deref(), Some("No pude consultar versión."));

    let loud = probe_command(ToolRun::Finished {
        path: "node".to_string(),
        success: false,
        stdout: Vec::new(),
        stderr: b" broken \n".to_vec(),
    });
    assert_eq!(loud.message.as_deref(), Some("broken"));

    let lost = probe_command(ToolRun::Failed {
        path: "node".to_string(),
        error: "permission denied".to_string(),
    });
    assert!(!lost.available);
    assert_eq!(lost.path.as_deref(), Some("node"));
    assert_eq!(lost.message.as_deref(), Some("permission denied"));
}
