use descargador::address::{compact_url_title, resolve_url, PageUrl};
use descargador::candidates::{
    extract_page_candidates, push_candidate, rank, rank_candidates, record_candidate,
};
use descargador::classify::{
    classify_candidate, classify_lowered, follow_target, has_extension, is_direct_file_url,
};
use descargador::harvest::{
    harvest_navigation_targets, harvest_urls_from_text, meta_refresh_target,
};
use descargador::html::{
    can_be_read, element_label, extract_page_title, page_elements, PageElement,
};
use descargador::probe::ProbeEntry;
use descargador::scan::{
    check_response, clean_referer, follow_targets, merge_entries, render_args, rendered_html,
    scan_target, PageScan, MAX_FOLLOW_LINKS,
};

fn url(text: &str) -> PageUrl {
    PageUrl::parse(text).unwrap()
}

fn entry(address: &str, title: &str, kind: &str) -> ProbeEntry {
    ProbeEntry {
        id: None,
        title: Some(title.to_string()),
        url: address.to_string(),
        webpage_url: Some(address.to_string()),
        duration: None,
        kind: Some(kind.to_string()),
        source: None,
        resolutions: Vec::new(),
    }
}

fn addresses(entries: &[ProbeEntry]) -> Vec<&str> {
    entries.iter().map(|entry| entry.url.as_str()).collect()
}

#[test]
fn scanner_finds_media_urls_inside_scripts() {
    let base = url("https://example.com/watch");
    let html = r#"<script>const source = "https://cdn.example.com/video.mp4";</script>"#;
    let entries = extract_page_candidates(&base, html);

    assert!(entries
        .iter()
        .any(|entry| entry.url == "https://cdn.example.com/video.mp4"));
}

#[test]
fn an_address_is_normalised_and_taken_apart() {
    let address = url("HTTPS://Example.COM/a/b%20c?q=1#x");
    assert_eq!(address.href(), "https://example.com/a/b%20c?q=1#x");
    assert_eq!(address.scheme(), "https");
    assert_eq!(address.host(), Some("example.com"));
    assert_eq!(address.path(), "/a/b%20c");
    assert_eq!(address.segments(), Some(&vec!["a".to_string(), "b%20c".to_string()]));
    assert_eq!(PageUrl::parse("no scheme").unwrap_err(), "relative URL without a base");
}

#[test]
fn references_are_resolved_on_their_page() {
    let base = url("https://example.com/a/b");
    let href = |raw: &str| resolve_url(&base, raw).map(|address| address.href().to_string());
    assert_eq!(href("c?d").as_deref(), Some("https://example.com/a/c?d"));
    assert_eq!(href(" '/x' ").as_deref(), Some("https://example.com/x"));
    assert_eq!(href("//cdn.org/y").as_deref(), Some("https://cdn.org/y"));
    assert_eq!(href("http://other.org").as_deref(), Some("http://other.org/"));
    for raw in ["", "  ", "\"\"", "#top", "mailto:a@b", "tel:1", "javascript:void(0)", "data:x"] {
        assert_eq!(href(raw), None, "{raw}");
    }
    assert_eq!(href("//"), None);
}

#[test]
fn references_are_resolved_on_the_address_as_it_was_read() {
    let base = url("file:/C:\t..");
    assert_eq!(base.href(), "file:///C:/..");
    let joined = resolve_url(&base, "?q").unwrap();
    assert_eq!(joined.href(), "file:///C:/..?q");
    assert_eq!(joined.path(), "/C:/..");
    let plain = url::Url::parse("file:/C:\t..").unwrap();
    assert_eq!(joined.href(), plain.join("?q").unwrap().as_str());
}

#[test]
fn a_title_is_made_of_host_and_last_segment() {
    assert_eq!(compact_url_title(&url("https://e.com/a/b.mp4?x")), "e.com / b.mp4");
    assert_eq!(compact_url_title(&url("https://e.com/a/")), "e.com");
    assert_eq!(compact_url_title(&url("mailto:someone")), "mailto:someone");
}

#[test]
fn links_are_classified_by_address_tag_and_label() {
    let of = |address: &str, tag: &str, label: &str| {
        classify_candidate(&url(address), tag, label)
    };
    let kind = |name: &str, score: i32| Some((name.to_string(), score));
    assert_eq!(of("https://e.com/A.M3U8?x", "a", ""), kind("HLS playlist", 120));
    assert_eq!(of("https://e.com/a.mpd", "a", ""), kind("DASH manifest", 115));
    assert_eq!(of("https://e.com/a.MP4", "a", ""), kind("video", 110));
    assert_eq!(of("https://e.com/a.ogg", "a", ""), kind("audio", 90));
    assert_eq!(of("https://e.com/a.iso", "a", ""), kind("archivo", 88));
    assert_eq!(of("https://e.com/a.vtt", "a", ""), kind("subtitulo", 55));
    assert_eq!(of("https://e.com/x", "button", "DESCARGAR"), kind("boton descarga", 84));
    assert_eq!(of("https://e.com/dl/x", "a", ""), kind("link descarga", 84));
    assert_eq!(of("https://e.com/x", "source", ""), kind("media source", 95));
    assert_eq!(of("https://e.com/x", "iframe", ""), kind("reproductor", 85));
    assert_eq!(of("https://e.com/embed/x", "a", ""), kind("posible reproductor", 70));
    assert_eq!(of("https://e.com/x", "a", "Ver Online"), kind("link video", 45));
    assert_eq!(of("https://e.com/x", "a", "about"), None);
    assert_eq!(
        classify_lowered("https://e.com/x?f=.mp4", "/x", "a", ""),
        None
    );
}

#[test]
fn files_are_known_by_their_endings() {
    assert!(has_extension("/a.tar.gz", &["zip", "gz"]));
    assert!(!has_extension("/agz", &["gz"]));
    assert!(!has_extension("/a.gz", &[]));
    assert!(is_direct_file_url(&url("https://e.com/a.SRT")));
    assert!(is_direct_file_url(&url("https://e.com/x?list=a.m3u8")));
    assert!(!is_direct_file_url(&url("https://e.com/x?f=a.mp4")));
}

#[test]
fn pages_worth_opening_are_followed() {
    let source = url("https://e.com/page");
    let href = |entry: &ProbeEntry| follow_target(entry, &source).map(|target| target.href().to_string());
    assert_eq!(
        href(&entry("https://e.com/x", "Opción 1", "link video")).as_deref(),
        Some("https://e.com/x")
    );
    assert_eq!(
        href(&entry("https://e.com/SERVER/1", "", "")).as_deref(),
        Some("https://e.com/SERVER/1")
    );
    assert_eq!(href(&entry("https://e.com/page", "Descargar", "")), None);
    assert_eq!(href(&entry("https://e.com/a.mp4", "Descargar", "")), None);
    assert_eq!(href(&entry("https://e.com/about", "about", "")), None);
    assert_eq!(href(&entry("not an address", "Descargar", "")), None);
    let mut plain = entry("https://e.com/download", "", "");
    plain.webpage_url = None;
    assert_eq!(href(&plain).as_deref(), Some("https://e.com/download"));
}

#[test]
fn addresses_are_found_in_text_once_each() {
    assert_eq!(
        harvest_urls_from_text(
            r#"a https:\/\/e.com b 'x/y.mp4?z&amp;w' https://e.com/q "https://e.com/v.zip" 'x/y.mp4?z&w'"#
        ),
        ["https://e.com", "https://e.com/q", "https://e.com/v.zip", "x/y.mp4?z&w"]
    );
    assert!(harvest_urls_from_text("nothing").is_empty());
}

#[test]
fn targets_are_found_in_handlers() {
    assert_eq!(
        harvest_navigation_targets("window.open('/go/1'); location.href = \"/two\""),
        ["/go/1", "/two"]
    );
    assert_eq!(harvest_navigation_targets("f({url: 'u1', redirect = \"u2\"})"), ["u1", "u2"]);
    assert_eq!(harvest_navigation_targets("go(' x/Download ', 'my-download')"), ["my-download"]);
    assert!(harvest_navigation_targets("alert(1)").is_empty());
}

#[test]
fn a_redirection_names_its_target() {
    assert_eq!(meta_refresh_target("5; URL='/next' ; x").as_deref(), Some("/next"));
    assert_eq!(meta_refresh_target("0;url=https://e.com").as_deref(), Some("https://e.com"));
    assert_eq!(meta_refresh_target("0;url=''"), None);
    assert_eq!(meta_refresh_target("curl=1"), None);
    assert_eq!(meta_refresh_target("plain"), None);
}

#[test]
fn a_page_has_the_title_it_gives() {
    assert_eq!(
        extract_page_title("<title> A \n page </title><title>B</title>").as_deref(),
        Some("A page")
    );
    assert_eq!(extract_page_title("<title> </title>"), None);
    assert_eq!(extract_page_title("<p>x</p>"), None);
    assert!(can_be_read("<p>x</p>"));
}

#[test]
fn elements_with_addresses_are_selected() {
    let elements = page_elements(
        "<p>x</p><a HREF='/1' title='t'>one <b>bold</b></a><img src='/2'><form action='/3'></form>",
    )
    .unwrap();
    let tags: Vec<&str> = elements.iter().map(|element| element.tag.as_str()).collect();
    assert_eq!(tags, ["a", "img", "form"]);
    assert_eq!(elements[0].attr("href"), Some("/1"));
    assert_eq!(elements[0].attr("title"), Some("t"));
    assert_eq!(elements[0].attr("src"), None);
    assert_eq!(element_label(&elements[0], "a"), "one bold");
    assert_eq!(elements[1].attr("src"), Some("/2"));
    assert_eq!(element_label(&elements[1], "img"), "img");
}

#[test]
fn a_label_is_the_text_or_an_attribute() {
    let element = |texts: &[&str], attributes: &[(&str, &str)]| PageElement {
        tag: "a".to_string(),
        texts: texts.iter().map(|text| text.to_string()).collect(),
        attributes: attributes
            .iter()
            .map(|(name, value)| (name.to_string(), value.to_string()))
            .collect(),
    };
    assert_eq!(element_label(&element(&[" x", "y  z "], &[("title", "t")]), "f"), "x y z");
    assert_eq!(
        element_label(&element(&["  "], &[("alt", " the  alt "), ("title", " ")]), "f"),
        "the alt"
    );
    assert_eq!(
        element_label(&element(&[], &[("data-label", "l"), ("value", "v")]), "f"),
        "v"
    );
    assert_eq!(element_label(&element(&[], &[("href", "h")]), "f"), "f");
}

#[test]
fn candidates_are_ranked_and_distinct() {
    let base = url("https://e.com/page");
    let html = r##"
        <a href="/server/1">Servidor 1</a>
        <a href="/server/1">again</a>
        <a href="#top">Descargar</a>
        <a href="/about">About</a>
        <video src="/v.mp4" title="The video"></video>
        <meta http-equiv="refresh" content="5;url=/download/go">
        <button onclick="window.open('/x/download')"> Bajar  ahora </button>
        <script>var s = "list.m3u8";</script>
    "##;
    let entries = extract_page_candidates(&base, html);
    assert_eq!(
        addresses(&entries),
        [
            "https://e.com/list.m3u8",
            "https://e.com/v.mp4",
            "https://e.com/download/go",
            "https://e.com/server/1",
            "https://e.com/x/download",
        ]
    );
    assert_eq!(entries[0].title.as_deref(), Some("e.com / list.m3u8"));
    assert_eq!(entries[0].kind.as_deref(), Some("HLS playlist"));
    assert_eq!(entries[0].source.as_deref(), Some("html"));
    assert_eq!(entries[1].title.as_deref(), Some("The video"));
    assert_eq!(entries[1].webpage_url.as_deref(), Some("https://e.com/v.mp4"));
    assert_eq!(entries[2].source.as_deref(), Some("meta"));
    assert_eq!(entries[3].title.as_deref(), Some("Servidor 1"));
    assert_eq!(entries[4].kind.as_deref(), Some("boton descarga"));
    assert_eq!(entries[4].title.as_deref(), Some("Bajar ahora"));
}

#[test]
fn ranking_is_by_score_then_address() {
    let list = rank(vec![
        (5, entry("b", "", "")),
        (9, entry("z", "", "")),
        (5, entry("a", "", "")),
        (7, entry("m", "", "")),
    ]);
    let order: Vec<(i32, &str)> =
        list.iter().map(|(score, entry)| (*score, entry.url.as_str())).collect();
    assert_eq!(order, [(9, "z"), (7, "m"), (5, "a"), (5, "b")]);
}

#[test]
fn a_candidate_is_recorded_once() {
    let base = url("https://e.com/");
    let mut seen = Vec::new();
    let mut scored = Vec::new();
    push_candidate(&base, "/about", "About", "a", &mut seen, &mut scored);
    assert_eq!(seen, ["https://e.com/about"]);
    assert!(scored.is_empty());
    push_candidate(&base, "/about", "Descargar", "a", &mut seen, &mut scored);
    assert!(scored.is_empty());
    push_candidate(&base, "/a.zip", "", "html", &mut seen, &mut scored);
    push_candidate(&base, "#", "Descargar", "a", &mut seen, &mut scored);
    assert_eq!(seen.len(), 2);
    assert_eq!(scored.len(), 1);
    assert_eq!(scored[0].0, 88);
    record_candidate(
        url("https://e.com/x"),
        Some(("k".to_string(), 3)),
        " a  b ",
        "tag",
        &mut seen,
        &mut scored,
    );
    assert_eq!(scored[1].0, 3);
    assert_eq!(scored[1].1.title.as_deref(), Some("a b"));
    assert_eq!(scored[1].1.source.as_deref(), Some("tag"));
}

#[test]
fn given_elements_and_addresses_are_ranked() {
    let elements = vec![PageElement {
        tag: "a".to_string(),
        texts: vec!["Bajar".to_string()],
        attributes: vec![("href".to_string(), "/x".to_string())],
    }];
    let urls = vec!["/a.mp3".to_string(), "/x".to_string()];
    let entries = rank_candidates(&url("https://e.com/"), &elements, &urls);
    assert_eq!(addresses(&entries), ["https://e.com/a.mp3", "https://e.com/x"]);
    assert_eq!(entries[1].title.as_deref(), Some("Bajar"));
}

#[test]
fn merging_keeps_what_is_there() {
    let mut entries = vec![entry("a", "1", ""), entry("b", "2", "")];
    merge_entries(
        &mut entries,
        vec![entry("b", "3", ""), entry("c", "4", ""), entry("c", "5", "")],
    );
    assert_eq!(addresses(&entries), ["a", "b", "c"]);
    assert_eq!(entries[1].title.as_deref(), Some("2"));
    assert_eq!(entries[2].title.as_deref(), Some("4"));
}

#[test]
fn at_most_twelve_pages_are_opened() {
    let source = url("https://e.com/page");
    let entries: Vec<ProbeEntry> = (0..20)
        .map(|n| entry(&format!("https://e.com/{n}"), if n == 3 { "x" } else { "Server" }, ""))
        .collect();
    let targets = follow_targets(&entries, &source);
    assert_eq!(targets.len(), MAX_FOLLOW_LINKS);
    assert_eq!(targets[3].href(), "https://e.com/4");
    assert_eq!(targets[11].href(), "https://e.com/12");
    assert_eq!(follow_targets(&entries[..5].iter().map(|e| entry(&e.url, "Server", "")).collect(), &source).len(), 5);
}

#[test]
fn a_scan_gathers_what_its_pages_give() {
    let mut scan = PageScan::begin(
        url("https://e.com/page"),
        "<title>Page</title><a href='/server/1'>Server</a><a href='/a.mp4'>A</a>",
    );
    assert_eq!(scan.referer(), "https://e.com/page");
    assert!(scan.next_target().is_none());
    scan.add_rendered(Some("<a href='/a.mp4'>again</a><a href='/download/2'>x</a>"));
    let first = scan.next_target().unwrap();
    assert_eq!(first.href(), "https://e.com/server/1");
    scan.add_opened(&first, "<a href='final.mp4'>F</a>");
    assert_eq!(scan.next_target().unwrap().href(), "https://e.com/download/2");
    assert!(scan.next_target().is_none());

    let result = scan.finish().unwrap();
    assert_eq!(result.source_url, "https://e.com/page");
    assert_eq!(result.title.as_deref(), Some("Page"));
    assert_eq!(
        addresses(&result.entries),
        [
            "https://e.com/a.mp4",
            "https://e.com/server/1",
            "https://e.com/download/2",
            "https://e.com/server/final.mp4",
        ]
    );
}

#[test]
fn a_scan_that_finds_nothing_is_refused() {
    let mut scan = PageScan::begin(url("https://e.com/page"), "<p>nothing</p>");
    scan.add_rendered(None);
    assert!(scan.next_target().is_none());
    assert_eq!(
        scan.finish().unwrap_err(),
        "No encontre links descargables visibles. Si la pagina los crea solo despues de ejecutar JavaScript, haria falta un escaneo con navegador para paginas propias o autorizadas."
    );
}

#[test]
fn a_scan_needs_an_address() {
    assert_eq!(scan_target("  https://e.com ").unwrap().href(), "https://e.com/");
    assert_eq!(
        scan_target("e.com").unwrap_err(),
        "No pude interpretar esa URL para escanear la pagina: relative URL without a base"
    );
}

#[test]
fn a_referer_is_a_text_that_is_not_empty() {
    assert_eq!(clean_referer(Some(" https://e.com ")).as_deref(), Some("https://e.com"));
    assert_eq!(clean_referer(Some("  ")), None);
    assert_eq!(clean_referer(None), None);
}

#[test]
fn only_pages_are_accepted() {
    assert_eq!(check_response(true, "200 OK", "Text/HTML; charset=utf-8"), Ok(()));
    assert_eq!(check_response(true, "200 OK", "application/xhtml+xml"), Ok(()));
    assert_eq!(check_response(true, "200 OK", ""), Ok(()));
    assert_eq!(
        check_response(true, "200 OK", "Video/MP4").unwrap_err(),
        "El destino no parece una pagina HTML (video/mp4)."
    );
    assert_eq!(
        check_response(false, "404 Not Found", "text/html").unwrap_err(),
        "La pagina respondio con estado HTTP 404 Not Found."
    );
}

#[test]
fn a_browser_shows_a_page() {
    assert_eq!(
        render_args("/tmp/p", "https://e.com/"),
        [
            "--headless=new", "--disable-gpu", "--disable-extensions",
            "--disable-background-networking", "--dump-dom", "--virtual-time-budget=12000",
            "--user-data-dir=/tmp/p", "https://e.com/",
        ]
    );
    assert_eq!(rendered_html(true, b"<p>\xff").as_deref(), Some("<p>\u{fffd}"));
    assert_eq!(rendered_html(true, b" \n"), None);
    assert_eq!(rendered_html(false, b"<p>"), None);
}
