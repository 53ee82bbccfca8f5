use descargador::download::{
    cancelled_update, download_args, finish_download_job, format_selector, run_download_job,
    DownloadJob, JobOutcome, StreamLog,
};
use descargador::progress::{
    make_news, parse_download_line, parse_percent, parse_speed_eta, DownloadUpdate,
};

fn percent(update: &DownloadUpdate) -> Option<f64> {
    update.progress.as_ref().map(|text| text.parse::<f64>().unwrap())
}

fn job(title: Option<&str>, max_height: Option<u32>) -> DownloadJob {
    DownloadJob {
        id: "job-1".to_string(),
        title: title.map(|text| text.to_string()),
        url: "https://example.com/v".to_string(),
        max_height,
    }
}

#[test]
fn final_file_line_completes_the_job() {
    let update =
        parse_download_line("job-1", "[download] Final file: C:\\Downloads\\video.mp4").unwrap();

    assert_eq!(update.status, "completed");
    assert_eq!(percent(&update), Some(100.0));
    assert_eq!(update.file.as_deref(), Some("C:\\Downloads\\video.mp4"));
}

#[test]
fn a_destination_line_names_the_file() {
    let update = parse_download_line("j", "[download] Destination:  video.mp4 ").unwrap();
    assert_eq!(update.id, "j");
    assert_eq!(update.status, "downloading");
    assert_eq!(update.file.as_deref(), Some("video.mp4"));
    assert_eq!(update.message.as_deref(), Some("Archivo destino detectado."));
    assert_eq!(update.progress, None);
}

#[test]
fn a_merger_line_names_the_file_without_quotes() {
    let update = parse_download_line("j", "[Merger] Merging formats into \"a b.mp4\"").unwrap();
    assert_eq!(update.status, "processing");
    assert_eq!(update.file.as_deref(), Some("a b.mp4"));
    assert_eq!(update.message.as_deref(), Some("Uniendo audio y video."));
}

#[test]
fn lines_after_the_download_are_processing() {
    for line in [
        "[ExtractAudio] Destination: a.mp3",
        "x [VideoRemuxer] y",
        "[Merger] else",
        "[VideoConvertor] z",
        "[FixupM3u8] z",
        "Deleting original file a.f137.mp4",
    ] {
        let update = parse_download_line("j", line).unwrap();
        assert_eq!(update.status, "processing");
        assert_eq!(update.message.as_deref(), Some(line));
        assert_eq!(update.file, None);
    }
}

#[test]
fn warnings_and_errors_are_told_apart() {
    let warning = parse_download_line("j", "WARNING: slow").unwrap();
    assert_eq!(warning.status, "extracting");
    assert_eq!(warning.message.as_deref(), Some("WARNING: slow"));
    let error = parse_download_line("j", "ERROR: gone").unwrap();
    assert_eq!(error.status, "failed");
    assert_eq!(error.message.as_deref(), Some("ERROR: gone"));
    let other = parse_download_line("j", "[youtube] abc: page").unwrap();
    assert_eq!(other.status, "extracting");
    assert!(parse_download_line("j", "plain text").is_none());
    assert!(parse_download_line("j", "").is_none());
}

#[test]
fn a_file_that_is_there_completes_the_job() {
    let update =
        parse_download_line("j", "[download] a.mp4 has already been downloaded").unwrap();
    assert_eq!(update.status, "completed");
    assert_eq!(percent(&update), Some(100.0));
    assert_eq!(update.message.as_deref(), Some("El archivo ya existía."));
}

#[test]
fn remarks_on_the_download_are_passed_on() {
    for line in [
        "[download] Downloading item 1 of 3",
        "[download] Got error: timed out",
        "[download] Unable to resume",
    ] {
        let update = parse_download_line("j", line).unwrap();
        assert_eq!(update.status, "downloading");
        assert_eq!(update.message.as_deref(), Some(line));
    }
}

#[test]
fn a_progress_line_gives_percent_speed_and_eta() {
    let line = "[download]  42.5% of ~ 10.00MiB at  1.20MiB/s ETA 00:07";
    let update = parse_download_line("j", line).unwrap();
    assert_eq!(update.status, "downloading");
    assert_eq!(percent(&update), Some(42.5));
    assert_eq!(update.speed.as_deref(), Some("1.20MiB/s"));
    assert_eq!(update.eta.as_deref(), Some("00:07"));
    assert_eq!(update.message, None);
    assert!(parse_download_line("j", "[download] nothing to tell").is_none());
}

#[test]
fn a_percent_is_the_number_before_the_sign() {
    assert_eq!(parse_percent("[download]  7% of").as_deref(), Some("7"));
    assert_eq!(parse_percent("a 1e2% 5%").as_deref(), Some("1e2"));
    assert_eq!(parse_percent("-.5%").as_deref(), Some("-.5"));
    assert_eq!(parse_percent("inf%").as_deref(), Some("inf"));
    assert_eq!(parse_percent("abc%"), None);
    assert_eq!(parse_percent("%"), None);
    assert_eq!(parse_percent("1.%").as_deref(), Some("1."));
    assert_eq!(parse_percent(".%"), None);
    assert_eq!(parse_percent("12"), None);
}

#[test]
fn a_percent_is_read_where_a_number_is() {
    for token in [
        "1", "+1", "-1", "1.5", ".5", "5.", "1e5", "1E+5", "1.5e-3", "inf", "-Infinity", "NaN",
        "nan", "+nan", "", "+", ".", "e5", "1e", "1e+", "1_0", "0x1", "1.2.3", "infin", "--1",
    ] {
        let line = format!("x {token}%");
        let expected = line
            .split('%')
            .next()
            .unwrap()
            .split_whitespace()
            .last()
            .filter(|word| word.parse::<f64>().is_ok())
            .map(|word| word.to_string());
        assert_eq!(parse_percent(&line), expected, "{token}");
    }
}

#[test]
fn speed_and_eta_stand_behind_their_words() {
    assert_eq!(
        parse_speed_eta("x at 1MiB/s ETA 00:07"),
        (Some("1MiB/s".to_string()), Some("00:07".to_string()))
    );
    assert_eq!(parse_speed_eta("x at 1MiB/s"), (Some("1MiB/s".to_string()), None));
    assert_eq!(parse_speed_eta("x at   ETA  "), (None, None));
    assert_eq!(parse_speed_eta("x at "), (Some(String::new()), None));
    assert_eq!(parse_speed_eta("x ETA 5"), (None, None));
}

#[test]
fn formats_are_limited_in_height() {
    let free = "bv*[ext=mp4]+ba[ext=m4a]/b[ext=mp4]/bv*+ba/b";
    assert_eq!(format_selector(None), free);
    assert_eq!(format_selector(Some(0)), free);
    assert_eq!(
        format_selector(Some(720)),
        "bv*[height<=720][ext=mp4]+ba[ext=m4a]/b[height<=720][ext=mp4]/bv*[height<=720]+ba/b[height<=720]"
    );
    assert_eq!(format_selector(Some(16384)), format_selector(Some(u32::MAX)));
    assert!(format_selector(Some(u32::MAX)).contains("height<=16384]"));
}

#[test]
fn download_arguments_are_complete_and_end_in_the_address() {
    let args = download_args(
        &job(None, None),
        Some("/n"),
        Some(("/f/ffmpeg", Some("/f"))),
        Some("Edge"),
        Some("/out"),
        Some(" https://example.com/ "),
    )
    .unwrap();
    assert_eq!(
        args,
        [
            "--newline", "--no-color", "--ignore-config", "--windows-filenames", "--no-playlist",
            "--continue", "--part", "--retries", "10", "--fragment-retries", "10",
            "--file-access-retries", "10", "--retry-sleep", "fragment:exp=1:20",
            "--socket-timeout", "30", "--concurrent-fragments", "4", "--format",
            "bv*[ext=mp4]+ba[ext=m4a]/b[ext=mp4]/bv*+ba/b", "--merge-output-format", "mp4",
            "--no-overwrites", "--print", "after_move:[download] Final file: %(filepath)s", "-o",
            "%(title).200B [%(id)s].%(ext)s", "--js-runtimes", "node:/n", "--ffmpeg-location",
            "/f", "--cookies-from-browser", "edge", "-P", "/out", "--referer",
            "https://example.com/", "https://example.com/v",
        ]
    );

    let short = download_args(&job(None, None), None, None, None, None, Some("  ")).unwrap();
    assert_eq!(short.len(), 29);
    assert_eq!(short.last().map(|arg| arg.as_str()), Some("https://example.com/v"));
    assert!(download_args(&job(None, None), None, None, Some("x"), None, None).is_err());
}

#[test]
fn a_job_begins_with_extracting() {
    let plan = run_download_job(&job(Some("A video"), None), None, None, None, None, None);
    assert_eq!(plan.started.id, "job-1");
    assert_eq!(plan.started.status, "extracting");
    assert_eq!(percent(&plan.started), Some(0.0));
    assert_eq!(plan.started.message.as_deref(), Some("A video"));
    assert!(plan.launch.is_ok());

    let plan = run_download_job(&job(None, None), None, None, Some("opera"), None, None);
    assert_eq!(plan.started.message.as_deref(), Some("https://example.com/v"));
    let failed = plan.launch.unwrap_err();
    assert_eq!(failed.status, "failed");
    assert_eq!(failed.message.as_deref(), Some("Navegador de cookies no compatible."));
}

#[test]
fn a_job_ends_as_its_process_did() {
    let done = finish_download_job(
        "j",
        JobOutcome::Exited { success: true, status: "exit status: 0".to_string() },
        Some("ignored".to_string()),
    );
    assert_eq!(done.status, "completed");
    assert_eq!(percent(&done), Some(100.0));
    assert_eq!(done.message.as_deref(), Some("Descarga completa."));

    let told = finish_download_job(
        "j",
        JobOutcome::Exited { success: false, status: "exit status: 1".to_string() },
        Some("ERROR: gone".to_string()),
    );
    assert_eq!(told.status, "failed");
    assert_eq!(told.message.as_deref(), Some("ERROR: gone"));

    let silent = finish_download_job(
        "j",
        JobOutcome::Exited { success: false, status: "exit status: 1".to_string() },
        None,
    );
    assert_eq!(silent.message.as_deref(), Some("yt-dlp terminó con código exit status: 1"));

    let lost = finish_download_job("j", JobOutcome::Lost { error: "x".to_string() }, None);
    assert_eq!(lost.status, "failed");
    assert_eq!(lost.message.as_deref(), Some("Error esperando a yt-dlp: x"));

    let never = finish_download_job("j", JobOutcome::NotStarted { error: "y".to_string() }, None);
    assert_eq!(never.status, "failed");
    assert_eq!(never.message.as_deref(), Some("No pude iniciar yt-dlp: y"));

    let stopped = finish_download_job("j", JobOutcome::Cancelled, Some("ignored".to_string()));
    assert_eq!(stopped.status, "cancelled");
    assert_eq!(stopped.message.as_deref(), Some("Descarga detenida."));
    assert_eq!(cancelled_update("k").id, "k");
}

#[test]
fn all_news_of_a_job_are_about_it() {
    let job = job(None, None);
    let plan = run_download_job(&job, None, None, None, None, None);
    assert!(plan.launch.is_ok());
    let mut all = vec![plan.started];
    let mut log = StreamLog::new();
    for line in ["[youtube] x", "noise", "[download]  50% of", "ERROR: gone"] {
        all.extend(log.read_line(&job.id, line));
    }
    all.push(finish_download_job(
        &job.id,
        JobOutcome::Exited { success: false, status: "exit status: 1".to_string() },
        log.message(),
    ));
    assert!(all.iter().all(|update| update.id == "job-1"));
    let statuses: Vec<&str> = all.iter().map(|update| update.status.as_str()).collect();
    assert_eq!(statuses, ["extracting", "extracting", "downloading", "failed", "failed"]);
    assert_eq!(all[0].message.as_deref(), Some("https://example.com/v"));
    assert_eq!(all[4].message.as_deref(), Some("ERROR: gone"));
}

#[test]
fn a_stream_is_remembered_by_its_last_error_or_warning() {
    let mut log = StreamLog::new();
    assert!(log.read_line("j", "  ").is_none());
    assert!(log.read_line("j", " WARNING: one ").is_some());
    assert!(log.read_line("j", "plain Error: two").is_none());
    log.read_line("j", "WARNING: three");
    assert_eq!(log.message().as_deref(), Some("plain Error: two"));

    let mut mild = StreamLog::new();
    mild.read_line("j", "WARNING: one");
    mild.read_line("j", "WARNING: two");
    assert_eq!(mild.message().as_deref(), Some("WARNING: two"));

    let mut loud = StreamLog::new();
    loud.read_line("j", "ERROR: one");
    loud.read_line("j", "WARNING: an error: two");
    assert_eq!(loud.message().as_deref(), Some("WARNING: an error: two"));
    assert_eq!(StreamLog::new().message(), None);
}

#[test]
fn news_carry_what_they_are_made_of() {
    let update = make_news("j", "s", Some("5"), Some("f".to_string()), Some("m"));
    assert_eq!(update.id, "j");
    assert_eq!(update.status, "s");
    assert_eq!(update.progress.as_deref(), Some("5"));
    assert_eq!(update.file.as_deref(), Some("f"));
    assert_eq!(update.message.as_deref(), Some("m"));
    assert_eq!(update.speed, None);
    assert_eq!(update.eta, None);
}
