//! The scan of a page: the page itself, the page as a browser shows it, and the pages that the
//! entries found there lead to.

use vstd::prelude::*;

use crate::address::{url_of_text, url_view, PageUrl, UrlView};
use crate::candidates::{extract_page_candidates, law_candidates_are_distinct, page_candidates};
use crate::classify::{follow_target, followed, is_direct_file};
use crate::harvest::urls_in;
use crate::html::{extract_page_title, is_readable, link_elements, page_title};
use crate::lists::reversed;
use crate::probe::{entries_view, EntryView, ProbeEntry, ProbeResult, ResultView};
use crate::text::{
    contains, has_text, is_blank, is_white, law_trimming_keeps_the_core, same_text, trim, trimmed,
};
use crate::tools::push_arg;
use crate::unicode::{decode_lossy, lossy_text, lowercase, to_lowercase};

verus! {

/// How the scanner calls itself.
pub const SCANNER_USER_AGENT: &'static str =
    "Mozilla/5.0 (Windows NT 10.0; Win64; x64) DescargadorA1/0.1 authorized-link-scanner";

/// How many pages are opened at most for the entries found on one page.
pub const MAX_FOLLOW_LINKS: usize = 12;

/// The pause before each of these pages, in milliseconds.
pub const FOLLOW_DELAY_MS: u64 = 450;

/// The address to scan, or what is wrong with what the user wrote.
pub fn scan_target(url: &str) -> (target: Result<PageUrl, String>)
    ensures
        match url_of_text(trimmed(url@)) {
            Ok(address) => target matches Ok(page) && page@ == address,
            Err(reason) => target matches Err(message) && message@
                == "No pude interpretar esa URL para escanear la pagina: "@ + reason,
        },
{
    match PageUrl::parse(trim(url).as_str()) {
        Ok(page) => Ok(page),
        Err(reason) => {
            let mut message =
                "No pude interpretar esa URL para escanear la pagina: ".to_string();
            message.append(reason.as_str());
            Err(message)
        },
    }
}

/// The page that a user names as the one a link comes from, where there is something left of it
/// without white space.
pub open spec fn named_page(referer: Option<Seq<char>>) -> Option<Seq<char>> {
    match referer {
        Some(text) => if trimmed(text).len() > 0 {
            Some(trimmed(text))
        } else {
            None
        },
        None => None,
    }
}

/// The page that a user names as the one a link comes from.
pub fn clean_referer(referer: Option<&str>) -> (page: Option<String>)
    ensures
        page.deep_view() == named_page(referer.deep_view()),
{
    match referer {
        Some(text) => {
            let page = trim(text);
            if page.as_str().is_empty() {
                None
            } else {
                Some(page)
            }
        },
        None => None,
    }
}

/// The type of a document, in small letters, is that of a page, or is not given.
pub open spec fn is_page_type(content_type: Seq<char>) -> bool {
    content_type.len() == 0 || has_text(content_type, "text/html"@) || has_text(
        content_type,
        "application/xhtml"@,
    )
}

/// What is wrong with the answer of a server to the request for a page, if anything.
pub open spec fn response_fault(success: bool, status: Seq<char>, content_type: Seq<char>) -> Option<
    Seq<char>,
> {
    if !success {
        Some("La pagina respondio con estado HTTP "@ + status + "."@)
    } else if !is_page_type(content_type) {
        Some("El destino no parece una pagina HTML ("@ + content_type + ")."@)
    } else {
        None
    }
}

/// Checks the answer of a server to the request for a page, whose type is given in small letters.
pub fn check_page(success: bool, status: &str, content_type: &str) -> (result: Result<(), String>)
    ensures
        match response_fault(success, status@, content_type@) {
            Some(fault) => result matches Err(message) && message@ == fault,
            None => result is Ok,
        },
{
    if !success {
        let mut message = "La pagina respondio con estado HTTP ".to_string();
        message.append(status);
        message.append(".");
        return Err(message);
    }
    if !content_type.is_empty() && !contains(content_type, "text/html") && !contains(
        content_type,
        "application/xhtml",
    ) {
        let mut message = "El destino no parece una pagina HTML (".to_string();
        message.append(content_type);
        message.append(").");
        return Err(message);
    }
    Ok(())
}

/// Checks the answer of a server to the request for a page.
pub fn check_response(success: bool, status: &str, content_type: &str) -> (result: Result<
    (),
    String,
>)
    ensures
        match response_fault(success, status@, lowercase(content_type@)) {
            Some(fault) => result matches Err(message) && message@ == fault,
            None => result is Ok,
        },
{
    check_page(success, status, to_lowercase(content_type).as_str())
}

/// The arguments with which the browser shows a page.
pub open spec fn browser_arguments(profile: Seq<char>, url: Seq<char>) -> Seq<Seq<char>> {
    seq![
        "--headless=new"@,
        "--disable-gpu"@,
        "--disable-extensions"@,
        "--disable-background-networking"@,
        "--dump-dom"@,
        "--virtual-time-budget=12000"@,
        "--user-data-dir="@ + profile,
        url,
    ]
}

/// The arguments with which the browser shows a page.
pub fn render_args(profile: &str, url: &str) -> (args: Vec<String>)
    ensures
        args.deep_view() == browser_arguments(profile@, url@),
{
    let mut args: Vec<String> = Vec::new();
    push_arg(&mut args, "--headless=new");
    push_arg(&mut args, "--disable-gpu");
    push_arg(&mut args, "--disable-extensions");
    push_arg(&mut args, "--disable-background-networking");
    push_arg(&mut args, "--dump-dom");
    push_arg(&mut args, "--virtual-time-budget=12000");
    let mut folder = "--user-data-dir=".to_string();
    folder.append(profile);
    push_arg(&mut args, folder.as_str());
    push_arg(&mut args, url);
    assert(args.deep_view() =~= browser_arguments(profile@, url@));
    args
}

/// The page as the browser showed it, where it showed something.
pub fn rendered_html(success: bool, stdout: &[u8]) -> (html: Option<String>)
    ensures
        html.deep_view() == if success && trimmed(lossy_text(stdout@)).len() > 0 {
            Some(lossy_text(stdout@))
        } else {
            None
        },
{
    if !success {
        return None;
    }
    let html = decode_lossy(stdout);
    if trim(html.as_str()).as_str().is_empty() {
        None
    } else {
        Some(html)
    }
}

/// One of the entries is for the address.
pub open spec fn has_entry(entries: Seq<EntryView>, url: Seq<char>) -> bool {
    exists|i: int| 0 <= i < entries.len() && (#[trigger] entries[i]).url == url
}

/// The entries with more of them, of which those for an address that is there already are left
/// out.
pub open spec fn merged(entries: Seq<EntryView>, more: Seq<EntryView>) -> Seq<EntryView>
    decreases more.len(),
{
    if more.len() == 0 {
        entries
    } else {
        let before = merged(entries, more.drop_last());
        if has_entry(before, more.last().url) {
            before
        } else {
            before.push(more.last())
        }
    }
}

/// No two entries are for the same address.
pub open spec fn are_distinct_entries(entries: Seq<EntryView>) -> bool {
    forall|i: int, j: int|
        0 <= i < j < entries.len() ==> (#[trigger] entries[i]).url != (#[trigger] entries[j]).url
}

/// Adding entries keeps those that are there, in their places, puts no address in twice, and
/// leaves out no address.
pub proof fn law_merging(entries: Seq<EntryView>, more: Seq<EntryView>)
    ensures
        entries.is_prefix_of(merged(entries, more)),
        are_distinct_entries(entries) ==> are_distinct_entries(merged(entries, more)),
        forall|url: Seq<char>| #[trigger]
            has_entry(merged(entries, more), url) <==> has_entry(entries, url) || has_entry(
                more,
                url,
            ),
    decreases more.len(),
{
    if more.len() > 0 {
        let rest = more.drop_last();
        let last = more.last();
        law_merging(entries, rest);
        let before = merged(entries, rest);
        let after = merged(entries, more);
        assert(more[more.len() - 1] == last);
        assert forall|url: Seq<char>| has_entry(more, url) <==> has_entry(rest, url) || last.url
            == url by {
            if has_entry(more, url) {
                let i = choose|i: int| 0 <= i < more.len() && (#[trigger] more[i]).url == url;
                if i < rest.len() {
                    assert(rest[i].url == url);
                }
            }
            if has_entry(rest, url) {
                let i = choose|i: int| 0 <= i < rest.len() && (#[trigger] rest[i]).url == url;
                assert(more[i].url == url);
            }
        }
        if !has_entry(before, last.url) {
            assert(after[before.len() as int] == last);
            assert forall|url: Seq<char>| has_entry(after, url) <==> has_entry(before, url)
                || last.url == url by {
                if has_entry(after, url) {
                    let i = choose|i: int| 0 <= i < after.len() && (#[trigger] after[i]).url == url;
                    if i < before.len() {
                        assert(before[i].url == url);
                    }
                }
                if has_entry(before, url) {
                    let i = choose|i: int|
                        0 <= i < before.len() && (#[trigger] before[i]).url == url;
                    assert(after[i].url == url);
                }
            }
            assert forall|i: int, j: int|
                are_distinct_entries(entries) && 0 <= i < j < after.len() implies (
            #[trigger] after[i]).url != (#[trigger] after[j]).url by {
                assert(before[i].url == after[i].url);
            }
        }
    }
}

fn is_known(entries: &Vec<ProbeEntry>, url: &str) -> (found: bool)
    ensures
        found == has_entry(entries_view(entries@), url@),
{
    let ghost all = entries_view(entries@);
    let mut i: usize = 0;
    while i < entries.len()
        invariant
            all == entries_view(entries@),
            i <= entries@.len(),
            forall|k: int| 0 <= k < i ==> (#[trigger] all[k]).url != url@,
        decreases entries@.len() - i,
    {
        assert(all[i as int].url == entries@[i as int].url@);
        if same_text(entries[i].url.as_str(), url) {
            return true;
        }
        i += 1;
    }
    false
}

/// Adds entries, except those for an address that is there already.
pub fn merge_entries(entries: &mut Vec<ProbeEntry>, more: Vec<ProbeEntry>)
    ensures
        entries_view(final(entries)@) == merged(
            entries_view(old(entries)@),
            entries_view(more@),
        ),
{
    let ghost start = entries_view(entries@);
    let ghost all = entries_view(more@);
    let mut rest = reversed(more);
    let ghost mut done: int = 0;
    while rest.len() > 0
        invariant
            0 <= done,
            done + rest@.len() == more@.len(),
            all == entries_view(more@),
            rest@ == more@.skip(done).reverse(),
            entries_view(entries@) == merged(start, all.take(done)),
        decreases rest@.len(),
    {
        assert(rest@.last() == more@[done]);
        assert(all.take(done + 1).drop_last() =~= all.take(done));
        assert(all.take(done + 1).last() == more@[done]@);
        if let Some(entry) = rest.pop() {
            if !is_known(entries, entry.url.as_str()) {
                let ghost before = entries_view(entries@);
                let ghost view = entry@;
                entries.push(entry);
                assert(entries_view(entries@) =~= before.push(view));
            }
            assert(rest@ =~= more@.skip(done + 1).reverse());
            proof {
                done = done + 1;
            }
        }
    }
    assert(all.take(done) =~= all);
}

/// The pages that the entries lead to, in their order.
pub open spec fn followed_all(entries: Seq<EntryView>, source: Seq<char>) -> Seq<UrlView>
    decreases entries.len(),
{
    if entries.len() == 0 {
        seq![]
    } else {
        let before = followed_all(entries.drop_last(), source);
        match followed(entries.last(), source) {
            Some(target) => before.push(target),
            None => before,
        }
    }
}

/// The pages that are opened for the entries: the first of those that they lead to.
pub open spec fn targets_of(entries: Seq<EntryView>, source: Seq<char>) -> Seq<UrlView> {
    let all = followed_all(entries, source);
    if all.len() > MAX_FOLLOW_LINKS {
        all.take(MAX_FOLLOW_LINKS as int)
    } else {
        all
    }
}

/// What a list of addresses says.
pub open spec fn urls_view(urls: Seq<PageUrl>) -> Seq<UrlView> {
    urls.map_values(|url: PageUrl| url@)
}

proof fn lemma_followed_prefix(entries: Seq<EntryView>, source: Seq<char>, n: int)
    requires
        0 <= n <= entries.len(),
    ensures
        followed_all(entries.take(n), source).is_prefix_of(followed_all(entries, source)),
    decreases entries.len() - n,
{
    if n == entries.len() {
        assert(entries.take(n) =~= entries);
    } else {
        lemma_followed_prefix(entries, source, n + 1);
        assert(entries.take(n + 1).drop_last() =~= entries.take(n));
    }
}

/// The pages that are opened for the entries found on the page `source_url`.
pub fn follow_targets(entries: &Vec<ProbeEntry>, source_url: &PageUrl) -> (targets: Vec<PageUrl>)
    ensures
        urls_view(targets@) == targets_of(entries_view(entries@), source_url@.href),
{
    let ghost all = entries_view(entries@);
    let ghost source = source_url@.href;
    let mut targets: Vec<PageUrl> = Vec::new();
    assert(urls_view(targets@) =~= Seq::<UrlView>::empty());
    let mut i: usize = 0;
    while i < entries.len() && targets.len() < MAX_FOLLOW_LINKS
        invariant
            all == entries_view(entries@),
            source == source_url@.href,
            i <= entries@.len(),
            targets@.len() <= MAX_FOLLOW_LINKS,
            urls_view(targets@) == followed_all(all.take(i as int), source),
        decreases entries@.len() - i,
    {
        assert(all.take(i + 1).drop_last() =~= all.take(i as int));
        assert(all.take(i + 1).last() == entries@[i as int]@);
        if let Some(target) = follow_target(&entries[i], source_url) {
            let ghost before = urls_view(targets@);
            let ghost view = target@;
            targets.push(target);
            assert(urls_view(targets@) =~= before.push(view));
        }
        i += 1;
    }
    proof {
        lemma_followed_prefix(all, source, i as int);
        assert(urls_view(targets@).len() == targets@.len());
        if i == entries@.len() {
            assert(all.take(i as int) =~= all);
        } else {
            let complete = followed_all(all, source);
            assert(complete.take(MAX_FOLLOW_LINKS as int) =~= urls_view(targets@));
            if complete.len() == MAX_FOLLOW_LINKS {
                assert(complete =~= urls_view(targets@));
            }
        }
    }
    targets
}

proof fn lemma_followed_pages(entries: Seq<EntryView>, source: Seq<char>)
    ensures
        forall|i: int|
            0 <= i < followed_all(entries, source).len() ==> {
                &&& (#[trigger] followed_all(entries, source)[i]).href != source
                &&& !is_direct_file(followed_all(entries, source)[i])
            },
    decreases entries.len(),
{
    if entries.len() > 0 {
        lemma_followed_pages(entries.drop_last(), source);
    }
}

/// At most twelve pages are opened for a page, and neither a file nor the page itself is among
/// them.
pub proof fn law_targets(entries: Seq<EntryView>, source: Seq<char>)
    ensures
        targets_of(entries, source).len() <= 12,
        forall|i: int|
            0 <= i < targets_of(entries, source).len() ==> {
                &&& (#[trigger] targets_of(entries, source)[i]).href != source
                &&& !is_direct_file(targets_of(entries, source)[i])
            },
{
    lemma_followed_pages(entries, source);
    let all = followed_all(entries, source);
    assert forall|i: int| 0 <= i < targets_of(entries, source).len() implies {
        &&& (#[trigger] targets_of(entries, source)[i]).href != source
        &&& !is_direct_file(targets_of(entries, source)[i])
    } by {
        assert(targets_of(entries, source)[i] == all[i]);
    }
}

/// A scan that is under way: the page it began with, what was found so far, and the pages that are
/// still to be opened.
#[derive(Debug)]
pub struct PageScan {
    source: PageUrl,
    title: Option<String>,
    entries: Vec<ProbeEntry>,
    pending: Vec<PageUrl>,
}

/// A scan that is under way.
#[verifier::ext_equal]
pub struct ScanView {
    pub source: UrlView,
    pub title: Option<Seq<char>>,
    pub entries: Seq<EntryView>,
    pub pending: Seq<UrlView>,
}

impl View for PageScan {
    type V = ScanView;

    closed spec fn view(&self) -> ScanView {
        ScanView {
            source: self.source@,
            title: self.title.deep_view(),
            entries: entries_view(self.entries@),
            pending: urls_view(self.pending@),
        }
    }
}

/// The scan that begins with the page `html` at the address `source`.
pub open spec fn scan_begun(source: UrlView, html: Seq<char>) -> ScanView {
    ScanView {
        source,
        title: page_title(html),
        entries: page_candidates(source, html),
        pending: seq![],
    }
}

/// The scan after the browser has shown its page, or failed to. Now it is settled which pages are
/// to be opened.
pub open spec fn scan_rendered(scan: ScanView, html: Option<Seq<char>>) -> ScanView {
    let entries = match html {
        Some(html) => merged(scan.entries, page_candidates(scan.source, html)),
        None => scan.entries,
    };
    ScanView {
        source: scan.source,
        title: scan.title,
        entries,
        pending: targets_of(entries, scan.source.href),
    }
}

/// The scan after a page has been opened.
pub open spec fn scan_opened(scan: ScanView, url: UrlView, html: Seq<char>) -> ScanView {
    ScanView {
        source: scan.source,
        title: scan.title,
        entries: merged(scan.entries, page_candidates(url, html)),
        pending: scan.pending,
    }
}

/// The scan after the next page to open, if any is left, has been taken off its list.
pub open spec fn scan_taken(scan: ScanView) -> ScanView {
    if scan.pending.len() > 0 {
        ScanView {
            source: scan.source,
            title: scan.title,
            entries: scan.entries,
            pending: scan.pending.skip(1),
        }
    } else {
        scan
    }
}

/// What a user is told where nothing was found.
pub open spec fn nothing_found_message() -> Seq<char> {
    "No encontre links descargables visibles. Si la pagina los crea solo despues de ejecutar JavaScript, haria falta un escaneo con navegador para paginas propias o autorizadas."@
}

impl PageScan {
    /// Begins a scan with the page `html` at the address `source`.
    pub fn begin(source: PageUrl, html: &str) -> (scan: PageScan)
        requires
            is_readable(html),
        ensures
            scan@ == scan_begun(source@, html@),
    {
        let title = extract_page_title(html);
        let entries = extract_page_candidates(&source, html);
        let scan = PageScan { source, title, entries, pending: Vec::new() };
        assert(scan@.pending =~= Seq::<UrlView>::empty());
        scan
    }

    /// Takes in the page as the browser showed it, if it did, and settles which pages are to be
    /// opened.
    pub fn add_rendered(&mut self, html: Option<&str>)
        requires
            html matches Some(html) ==> is_readable(html),
        ensures
            final(self)@ == scan_rendered(old(self)@, html.deep_view()),
    {
        if let Some(html) = html {
            let more = extract_page_candidates(&self.source, html);
            merge_entries(&mut self.entries, more);
        }
        self.pending = follow_targets(&self.entries, &self.source);
    }

    /// The next page to open, if any is left, which is then off the list.
    pub fn next_target(&mut self) -> (target: Option<PageUrl>)
        ensures
            final(self)@ == scan_taken(old(self)@),
            url_view(target) == if old(self)@.pending.len() > 0 {
                Some(old(self)@.pending[0])
            } else {
                None
            },
    {
        if self.pending.len() == 0 {
            return None;
        }
        let ghost before = self.pending@;
        let target = self.pending.remove(0);
        assert(urls_view(self.pending@) =~= urls_view(before).skip(1));
        Some(target)
    }

    /// Takes in the page `html` at the address `url`, which has been opened.
    pub fn add_opened(&mut self, url: &PageUrl, html: &str)
        requires
            is_readable(html),
        ensures
            final(self)@ == scan_opened(old(self)@, url@, html@),
    {
        let more = extract_page_candidates(url, html);
        merge_entries(&mut self.entries, more);
    }

    /// The address from which pages are opened: that of the page the scan began with.
    pub fn referer(&self) -> (referer: &str)
        ensures
            referer@ == self@.source.href,
    {
        self.source.href()
    }

    /// What the scan comes to: what was found, or that nothing was.
    pub fn finish(self) -> (result: Result<ProbeResult, String>)
        ensures
            if self@.entries.len() == 0 {
                result matches Err(message) && message@ == nothing_found_message()
            } else {
                result matches Ok(found) && found@ == (ResultView {
                    source_url: self@.source.href,
                    title: self@.title,
                    entries: self@.entries,
                })
            },
    {
        assert(self@.entries.len() == self.entries@.len());
        if self.entries.len() == 0 {
            return Err(
                "No encontre links descargables visibles. Si la pagina los crea solo despues de ejecutar JavaScript, haria falta un escaneo con navegador para paginas propias o autorizadas.".to_string(),
            );
        }
        let source_url = self.source.href().to_string();
        Ok(ProbeResult { source_url, title: self.title, entries: self.entries })
    }
}

/// Something that happens to a scan.
pub enum ScanEvent {
    /// The browser has shown the page, or failed to.
    Rendered(Option<Seq<char>>),
    /// The next page to open has been taken off the list.
    Taken,
    /// A page has been opened.
    Opened(UrlView, Seq<char>),
}

/// The scan after something has happened to it.
pub open spec fn scan_step(scan: ScanView, event: ScanEvent) -> ScanView {
    match event {
        ScanEvent::Rendered(html) => scan_rendered(scan, html),
        ScanEvent::Taken => scan_taken(scan),
        ScanEvent::Opened(url, html) => scan_opened(scan, url, html),
    }
}

/// The scan after a sequence of events.
pub open spec fn scan_after(scan: ScanView, events: Seq<ScanEvent>) -> ScanView
    decreases events.len(),
{
    if events.len() == 0 {
        scan
    } else {
        scan_step(scan_after(scan, events.drop_last()), events.last())
    }
}

/// Whatever pages are shown, taken off the list and opened in the course of a scan, no address is listed twice, and
/// what the first page gave stays at the head of the list.
pub proof fn law_scan_entries(source: UrlView, html: Seq<char>, events: Seq<ScanEvent>)
    ensures
        are_distinct_entries(scan_after(scan_begun(source, html), events).entries),
        page_candidates(source, html).is_prefix_of(
            scan_after(scan_begun(source, html), events).entries,
        ),
        scan_after(scan_begun(source, html), events).source == source,
        scan_after(scan_begun(source, html), events).title == page_title(html),
    decreases events.len(),
{
    if events.len() == 0 {
        if let Some(elements) = link_elements(html) {
            law_candidates_are_distinct(source, elements, urls_in(html));
        }
    } else {
        law_scan_entries(source, html, events.drop_last());
        let before = scan_after(scan_begun(source, html), events.drop_last());
        match events.last() {
            ScanEvent::Rendered(page) => {
                if let Some(page) = page {
                    law_merging(before.entries, page_candidates(before.source, page));
                }
            },
            ScanEvent::Taken => {},
            ScanEvent::Opened(url, page) => {
                law_merging(before.entries, page_candidates(url, page));
            },
        }
    }
}

/// An answer without success is refused with its status; one of another type than a page, or of an
/// application's page, is refused with its type; and one that gives no type is taken.
pub proof fn law_responses(success: bool, status: Seq<char>, content_type: Seq<char>)
    ensures
        !success ==> response_fault(success, status, content_type) == Some(
            "La pagina respondio con estado HTTP "@ + status + "."@,
        ),
        success && (content_type.len() == 0 || has_text(content_type, "text/html"@) || has_text(
            content_type,
            "application/xhtml"@,
        )) ==> response_fault(success, status, content_type) is None,
        success && content_type.len() > 0 && !has_text(content_type, "text/html"@) && !has_text(
            content_type,
            "application/xhtml"@,
        ) ==> response_fault(success, status, content_type) == Some(
            "El destino no parece una pagina HTML ("@ + content_type + ")."@,
        ),
{
}

/// A page that a link comes from is named without the white space around it, and not at all where
/// nothing else is left.
pub proof fn law_named_pages(left: Seq<char>, page: Seq<char>, right: Seq<char>)
    requires
        is_blank(left),
        is_blank(right),
        page.len() > 0 ==> !is_white(page[0]) && !is_white(page.last()),
    ensures
        named_page(Some(left + page + right)) == if page.len() > 0 {
            Some(page)
        } else {
            None
        },
        named_page(None) is None,
{
    law_trimming_keeps_the_core(left, page, right);
}

/// The browser is told to show the page at the address, which comes last, without a window and
/// with a profile of its own, and to write down what it shows.
pub proof fn law_browser_arguments(profile: Seq<char>, url: Seq<char>)
    ensures
        ({
            let args = browser_arguments(profile, url);
            &&& args.last() == url
            &&& args.contains("--headless=new"@)
            &&& args.contains("--disable-gpu"@)
            &&& args.contains("--disable-extensions"@)
            &&& args.contains("--disable-background-networking"@)
            &&& args.contains("--dump-dom"@)
            &&& args.contains("--virtual-time-budget=12000"@)
            &&& args.contains("--user-data-dir="@ + profile)
            &&& args.len() == 8
        }),
{
    let args = browser_arguments(profile, url);
    assert(args[0] == "--headless=new"@);
    assert(args[1] == "--disable-gpu"@);
    assert(args[2] == "--disable-extensions"@);
    assert(args[3] == "--disable-background-networking"@);
    assert(args[4] == "--dump-dom"@);
    assert(args[5] == "--virtual-time-budget=12000"@);
    assert(args[6] == "--user-data-dir="@ + profile);
}

/// Entries are added one after the other: each goes to the end, unless there is one for its
/// address.
pub proof fn law_merging_in_order(entries: Seq<EntryView>, more: Seq<EntryView>, entry: EntryView)
    ensures
        merged(entries, seq![]) == entries,
        merged(entries, more.push(entry)) == if (exists|i: int|
            0 <= i < merged(entries, more).len() && (#[trigger] merged(entries, more)[i]).url
                == entry.url) {
            merged(entries, more)
        } else {
            merged(entries, more).push(entry)
        },
{
    assert(more.push(entry).drop_last() =~= more);
}

/// The pages that several entries lead to are those that each of them leads to, in their order.
pub proof fn law_followed_in_order(
    left: Seq<EntryView>,
    right: Seq<EntryView>,
    entry: EntryView,
    source: Seq<char>,
)
    ensures
        followed_all(left + right, source) == followed_all(left, source) + followed_all(
            right,
            source,
        ),
        followed_all(seq![entry], source) == match followed(entry, source) {
            Some(target) => seq![target],
            None => seq![],
        },
    decreases right.len(),
{
    assert(seq![entry].drop_last() =~= Seq::<EntryView>::empty());
    assert(followed_all(seq![], source) =~= Seq::<UrlView>::empty());
    if right.len() == 0 {
        assert(left + right =~= left);
        assert(followed_all(right, source) =~= Seq::<UrlView>::empty());
    } else {
        law_followed_in_order(left, right.drop_last(), entry, source);
        assert((left + right).drop_last() =~= left + right.drop_last());
        assert((left + right).last() == right.last());
        assert(followed_all(left + right, source) =~= followed_all(left, source) + followed_all(
            right,
            source,
        ));
    }
}

/// Of the pages that the entries lead to, all are opened up to the twelfth.
pub proof fn law_first_pages_are_opened(entries: Seq<EntryView>, source: Seq<char>, i: int)
    requires
        0 <= i < 12,
        i < followed_all(entries, source).len(),
    ensures
        i < targets_of(entries, source).len(),
        targets_of(entries, source)[i] == followed_all(entries, source)[i],
{
}

/// What the browser shows, and each page that is opened, adds its own candidates, taken on its own
/// address, and nothing else; and the pages to open are those that all entries lead to once the
/// browser is done.
pub proof fn law_scan_steps(scan: ScanView, page: UrlView, html: Seq<char>, url: Seq<char>)
    ensures
        has_entry(scan_rendered(scan, Some(html)).entries, url) <==> has_entry(scan.entries, url)
            || has_entry(page_candidates(scan.source, html), url),
        has_entry(scan_opened(scan, page, html).entries, url) <==> has_entry(scan.entries, url)
            || has_entry(page_candidates(page, html), url),
        scan_rendered(scan, None).entries == scan.entries,
        scan_rendered(scan, None).pending == targets_of(scan.entries, scan.source.href),
        scan_rendered(scan, Some(html)).pending == targets_of(
            scan_rendered(scan, Some(html)).entries,
            scan.source.href,
        ),
        scan_opened(scan, page, html).pending == scan.pending,
        scan_begun(page, html).entries == page_candidates(page, html),
        scan_begun(page, html).title == page_title(html),
        scan_begun(page, html).source == page,
        scan.pending.len() > 0 ==> scan_taken(scan).pending == scan.pending.skip(1)
            && scan_taken(scan).entries == scan.entries,
        scan.pending.len() == 0 ==> scan_taken(scan) == scan,
{
    law_merging(scan.entries, page_candidates(scan.source, html));
    law_merging(scan.entries, page_candidates(page, html));
}

/// A scan keeps the address and the title of the page that it began with, whatever the browser
/// shows and whichever pages are opened; and where it finds nothing, the user is told so.
pub proof fn law_scans_are_named_by_their_first_page(
    scan: ScanView,
    page: UrlView,
    html: Seq<char>,
    rendered: Option<Seq<char>>,
)
    ensures
        scan_rendered(scan, rendered).source == scan.source,
        scan_rendered(scan, rendered).title == scan.title,
        scan_opened(scan, page, html).source == scan.source,
        scan_opened(scan, page, html).title == scan.title,
        scan_taken(scan).source == scan.source,
        scan_taken(scan).title == scan.title,
        nothing_found_message()
            == "No encontre links descargables visibles. Si la pagina los crea solo despues de ejecutar JavaScript, haria falta un escaneo con navegador para paginas propias o autorizadas."@,
{
}

} // verus!
