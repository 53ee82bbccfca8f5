use descargador::locate::{
    default_output_dir, ffmpeg_directory, locate_edge, locate_ffmpeg, locate_node, locate_winget_binary,
    locate_yt_dlp, normalize_output_dir, yt_dlp_candidates, ToolBase, WingetPackage,
};

fn steps(names: &[&str]) -> Vec<String> {
    names.iter().map(|name| name.to_string()).collect()
}

#[test]
fn the_downloader_is_looked_for_beside_the_program() {
    assert_eq!(
        yt_dlp_candidates(false, true, true, true, true),
        [
            (ToolBase::Sources, steps(&["tools", "yt-dlp"])),
            (ToolBase::Current, steps(&["tools", "yt-dlp"])),
            (ToolBase::Resources, steps(&["tools", "yt-dlp"])),
            (ToolBase::Resources, steps(&["yt-dlp"])),
            (ToolBase::Program, steps(&["tools", "yt-dlp"])),
            (ToolBase::Program, steps(&["yt-dlp"])),
        ]
    );
    assert_eq!(
        yt_dlp_candidates(true, false, true, false, false),
        [(ToolBase::Current, steps(&["tools", "yt-dlp.exe"]))]
    );
}

#[test]
fn the_first_place_that_exists_is_taken() {
    assert_eq!(locate_yt_dlp(vec![(1, false), (2, true), (3, true)], Some(9)), Ok(2));
    assert_eq!(locate_yt_dlp(vec![(1, false)], Some(9)), Ok(9));
    assert_eq!(
        locate_yt_dlp(vec![(1, false)], None).unwrap_err(),
        "No encontré yt-dlp. Dejalo en tools\\yt-dlp.exe o instalalo en el PATH."
    );
    assert_eq!(locate_edge(vec![(1, false), (2, true)]), Some(2));
    assert_eq!(locate_edge::<u8>(vec![]), None);
}

#[test]
fn the_search_path_comes_first() {
    assert_eq!(locate_node(Some(1), Some((2, true))), Some(1));
    assert_eq!(locate_node(None, Some((2, true))), Some(2));
    assert_eq!(locate_node(None, Some((2, false))), None);
    assert_eq!(locate_node::<u8>(None, None), None);
    assert_eq!(locate_ffmpeg(Some(1), Some(2)), Some(1));
    assert_eq!(locate_ffmpeg(None, Some(2)), Some(2));
    assert_eq!(ffmpeg_directory(1, Some(2)), 2);
    assert_eq!(ffmpeg_directory(1, None), 1);
}

#[test]
fn a_package_is_known_by_its_prefix() {
    let package = |name: &str, distributions: Option<Vec<(u8, bool)>>| WingetPackage {
        name: name.to_string(),
        distributions,
    };
    let found = locate_winget_binary(
        vec![
            package("Other", Some(vec![(1, true)])),
            package("Gyan.FFmpeg_a", Some(vec![(2, false)])),
            package("Gyan.FFmpeg_b", Some(vec![(3, false), (4, true)])),
        ],
        "Gyan.FFmpeg",
    );
    assert_eq!(found, Some(4));
    let unreadable = locate_winget_binary(
        vec![package("Gyan.FFmpeg_a", None), package("Gyan.FFmpeg_b", Some(vec![(4, true)]))],
        "Gyan.FFmpeg",
    );
    assert_eq!(unreadable, None);
    let skipped = locate_winget_binary(
        vec![package("Other", None), package("Gyan.FFmpeg", Some(vec![(4, true)]))],
        "Gyan.FFmpeg",
    );
    assert_eq!(skipped, Some(4));
}

#[test]
fn files_go_below_the_home_directory() {
    assert_eq!(
        default_output_dir(Some("C:\\u".to_string()), Some("/h".to_string())),
        Some(steps(&["C:\\u", "Downloads", "Descargador A1"]))
    );
    assert_eq!(
        default_output_dir(None, Some("/h".to_string())),
        Some(steps(&["/h", "Downloads", "Descargador A1"]))
    );
    assert_eq!(default_output_dir(None, None), None);
}

#[test]
fn a_directory_that_is_not_empty_is_taken() {
    let default = || Some("/d".to_string());
    assert_eq!(normalize_output_dir(Some(" /x ".to_string()), default()), Ok(Some("/x".to_string())));
    assert_eq!(normalize_output_dir(Some("  ".to_string()), default()), Ok(default()));
    assert_eq!(normalize_output_dir(None, default()), Ok(default()));
    assert_eq!(normalize_output_dir(None, None), Ok(None));
}
