//! Web addresses, read, taken apart and resolved with the `url` crate.

use vstd::prelude::*;

use crate::text::{
    first_at, has_prefix, has_text, is_blank, is_white, join, joined, law_joining, law_search,
    law_stripping_keeps_the_core, law_trimming_keeps_the_core, occurs_at, starts_with, trim,
    trim_matches, trimmed, trimmed_of,
};

verus! {

/// An address of the `url` crate.
#[verifier::external_type_specification]
#[verifier::external_body]
pub struct ExUrl(url::Url);

/// The text of an address and the parts of it that are read.
#[derive(Debug)]
struct PlainUrl {
    href: String,
    scheme: String,
    host: Option<String>,
    path: String,
    segments: Option<Vec<String>>,
}

/// A web address: what is read of it, and the value of the `url` crate on which references are
/// resolved.
#[derive(Debug)]
pub struct PageUrl {
    plain: PlainUrl,
    url: url::Url,
}

/// A web address and the parts of it that are read.
#[verifier::ext_equal]
pub struct UrlView {
    pub href: Seq<char>,
    pub scheme: Seq<char>,
    pub host: Option<Seq<char>>,
    pub path: Seq<char>,
    pub segments: Option<Seq<Seq<char>>>,
}

impl PlainUrl {
    spec fn says(&self) -> UrlView {
        UrlView {
            href: self.href@,
            scheme: self.scheme@,
            host: self.host.deep_view(),
            path: self.path@,
            segments: self.segments.deep_view(),
        }
    }
}

impl View for PageUrl {
    type V = UrlView;

    closed spec fn view(&self) -> UrlView {
        self.plain.says()
    }
}

/// An address that may be missing, as what it says.
pub open spec fn url_view(url: Option<PageUrl>) -> Option<UrlView> {
    match url {
        Some(url) => Some(url@),
        None => None,
    }
}

/// The scheme of an address: its text up to the first colon.
pub open spec fn scheme_of(href: Seq<char>) -> Seq<char> {
    match first_at(href, ":"@) {
        Some(i) => href.take(i),
        None => href,
    }
}

/// The pieces of a text between its slashes.
pub open spec fn split_at_slashes(text: Seq<char>) -> Seq<Seq<char>>
    decreases text.len(),
{
    if text.len() == 0 {
        seq![seq![]]
    } else {
        let before = split_at_slashes(text.drop_last());
        if text.last() == '/' {
            before.push(seq![])
        } else {
            before.drop_last().push(before.last().push(text.last()))
        }
    }
}

/// The segments of a path: what stands between its slashes, where it begins with one.
pub open spec fn segments_of(path: Seq<char>) -> Option<Seq<Seq<char>>> {
    if has_prefix(path, "/"@) {
        Some(split_at_slashes(path.skip(1)))
    } else {
        None
    }
}

/// The text of the absolute address that `text` is, or what the `url` crate says is wrong with it.
pub uninterp spec fn url_text(text: Seq<char>) -> Result<Seq<char>, Seq<char>>;

/// The text of the address that `reference` means on the page at the address `base`.
pub uninterp spec fn joined_text(base: Seq<char>, reference: Seq<char>) -> Option<Seq<char>>;

/// The text of an address of the `url` crate.
pub uninterp spec fn url_href(url: url::Url) -> Seq<char>;

/// The host of the address with the text `href`.
pub uninterp spec fn url_host(href: Seq<char>) -> Option<Seq<char>>;

/// The path of the address with the text `href`.
pub uninterp spec fn url_path(href: Seq<char>) -> Seq<char>;

/// The address with the text `href`.
pub open spec fn url_at(href: Seq<char>) -> UrlView {
    UrlView {
        href,
        scheme: scheme_of(href),
        host: url_host(href),
        path: url_path(href),
        segments: segments_of(url_path(href)),
    }
}

/// The absolute address that `text` is, or what the `url` crate says is wrong with it.
pub open spec fn url_of_text(text: Seq<char>) -> Result<UrlView, Seq<char>> {
    match url_text(text) {
        Ok(href) => Ok(url_at(href)),
        Err(reason) => Err(reason),
    }
}

/// The address that `reference` means on the page at the address `base`.
pub open spec fn url_joined(base: Seq<char>, reference: Seq<char>) -> Option<UrlView> {
    match joined_text(base, reference) {
        Some(href) => Some(url_at(href)),
        None => None,
    }
}

/// Reads an absolute address.
///
/// Trusted: the text of what `Url::parse` gives is a function of the text that was read. On a
/// failure the error's message is handed out. Which texts are addresses, and how they are
/// normalised, is left to the name.
#[verifier::external_body]
fn parse_url(text: &str) -> (result: Result<url::Url, String>)
    ensures
        match result {
            Ok(url) => url_text(text@) == Ok::<Seq<char>, Seq<char>>(url_href(url)),
            Err(message) => url_text(text@) == Err::<Seq<char>, Seq<char>>(message@),
        },
{
    url::Url::parse(text).map_err(|error| error.to_string())
}

/// Resolves a reference that stands on the page at the address `base`.
///
/// Trusted: the text of what `Url::join` gives is a function of the text of the address that it is
/// called on, which fixes that address, and of the reference. There is no result where the call
/// fails. What a reference means is left to the name.
#[verifier::external_body]
fn join_url(base: &url::Url, reference: &str) -> (result: Option<url::Url>)
    ensures
        match result {
            Some(url) => joined_text(url_href(*base), reference@) == Some(url_href(url)),
            None => joined_text(url_href(*base), reference@) is None,
        },
{
    base.join(reference).ok()
}

/// Reads the text of an address and its parts.
///
/// Trusted: `Url::as_str` gives the text of an address, `Url::scheme` what stands before its first
/// colon, and `Url::path_segments` what stands between the slashes of its path, where the path
/// begins with one. What `Url::host_str` and `Url::path` give is a function of the text alone, and
/// is left to their names.
#[verifier::external_body]
fn take_apart(url: &url::Url) -> (plain: PlainUrl)
    ensures
        plain.href@ == url_href(*url),
        plain.scheme@ == scheme_of(url_href(*url)),
        plain.host.deep_view() == url_host(url_href(*url)),
        plain.path@ == url_path(url_href(*url)),
        plain.segments.deep_view() == segments_of(plain.path@),
{
    PlainUrl {
        href: url.as_str().to_string(),
        scheme: url.scheme().to_string(),
        host: url.host_str().map(|host| host.to_string()),
        path: url.path().to_string(),
        segments: url.path_segments().map(|parts| parts.map(|part| part.to_string()).collect()),
    }
}

impl PageUrl {
    /// What is read of the address belongs to the address on which references are resolved.
    #[verifier::type_invariant]
    spec fn is_of_one_address(self) -> bool {
        self.plain.says() == url_at(url_href(self.url))
    }

    fn of_url(url: url::Url) -> (page: PageUrl)
        ensures
            page@ == url_at(url_href(url)),
    {
        let plain = take_apart(&url);
        PageUrl { plain, url }
    }

    /// Reads an absolute address, or says what is wrong with it.
    pub fn parse(text: &str) -> (result: Result<PageUrl, String>)
        ensures
            match url_of_text(text@) {
                Ok(address) => result matches Ok(url) && url@ == address,
                Err(reason) => result matches Err(message) && message@ == reason,
            },
    {
        match parse_url(text) {
            Ok(url) => Ok(PageUrl::of_url(url)),
            Err(message) => Err(message),
        }
    }

    /// The address that a reference means on the page at this address.
    fn join(&self, reference: &str) -> (url: Option<PageUrl>)
        ensures
            url_view(url) == url_joined(self@.href, reference@),
    {
        proof {
            use_type_invariant(self);
        }
        match join_url(&self.url, reference) {
            Some(url) => Some(PageUrl::of_url(url)),
            None => None,
        }
    }

    /// The text of the address.
    pub fn href(&self) -> (text: &str)
        ensures
            text@ == self@.href,
    {
        self.plain.href.as_str()
    }

    /// The scheme.
    pub fn scheme(&self) -> (text: &str)
        ensures
            text@ == self@.scheme,
    {
        self.plain.scheme.as_str()
    }

    /// The host, where there is one.
    pub fn host(&self) -> (text: Option<&str>)
        ensures
            text.deep_view() == self@.host,
    {
        match &self.plain.host {
            Some(host) => Some(host.as_str()),
            None => None,
        }
    }

    /// The path.
    pub fn path(&self) -> (text: &str)
        ensures
            text@ == self@.path,
    {
        self.plain.path.as_str()
    }

    /// The segments of the path, where it has segments.
    pub fn segments(&self) -> (segments: Option<&Vec<String>>)
        ensures
            match segments {
                Some(list) => self@.segments == Some(list.deep_view()),
                None => self@.segments is None,
            },
    {
        match &self.plain.segments {
            Some(segments) => Some(segments),
            None => None,
        }
    }
}

/// A reference as it stands in a page, without white space and quotes around it.
pub open spec fn bare_reference(raw_url: Seq<char>) -> Seq<char> {
    trimmed_of(trimmed(raw_url), seq!['"', '\'', '`'])
}

/// A reference that leads to no page: an empty one, a place on the same page, or another scheme
/// than that of a page.
pub open spec fn leads_nowhere(reference: Seq<char>) -> bool {
    ||| reference.len() == 0
    ||| has_prefix(reference, "#"@)
    ||| has_prefix(reference, "mailto:"@)
    ||| has_prefix(reference, "tel:"@)
    ||| has_prefix(reference, "javascript:"@)
    ||| has_prefix(reference, "data:"@)
}

/// The address that a reference on a page means, where it leads somewhere.
pub open spec fn resolved(base: UrlView, raw_url: Seq<char>) -> Option<UrlView> {
    let reference = bare_reference(raw_url);
    if leads_nowhere(reference) {
        None
    } else if has_prefix(reference, "//"@) {
        match url_of_text(base.scheme + ":"@ + reference) {
            Ok(url) => Some(url),
            Err(_) => None,
        }
    } else {
        url_joined(base.href, reference)
    }
}

/// Which address a reference asks for.
#[derive(Debug)]
pub enum Request {
    /// None.
    Nothing,
    /// The absolute address with this text.
    Absolute(String),
    /// The address that this reference means on the page it stands on.
    Relative(String),
}

/// Which address a reference asks for.
pub enum RequestView {
    Nothing,
    Absolute(Seq<char>),
    Relative(Seq<char>),
}

impl View for Request {
    type V = RequestView;

    open spec fn view(&self) -> RequestView {
        match self {
            Request::Nothing => RequestView::Nothing,
            Request::Absolute(text) => RequestView::Absolute(text@),
            Request::Relative(text) => RequestView::Relative(text@),
        }
    }
}

/// Which address a reference asks for, on a page whose address has the given scheme.
pub open spec fn requested(scheme: Seq<char>, raw_url: Seq<char>) -> RequestView {
    let reference = bare_reference(raw_url);
    if leads_nowhere(reference) {
        RequestView::Nothing
    } else if has_prefix(reference, "//"@) {
        RequestView::Absolute(scheme + ":"@ + reference)
    } else {
        RequestView::Relative(reference)
    }
}

/// Tells which address a reference asks for, on a page whose address has the given scheme.
pub fn request_of(scheme: &str, raw_url: &str) -> (request: Request)
    ensures
        request@ == requested(scheme@, raw_url@),
{
    let quotes = ['"', '\'', '`'];
    assert(quotes@ =~= seq!['"', '\'', '`']);
    let trimmed = trim_matches(trim(raw_url).as_str(), &quotes);
    let reference = trimmed.as_str();
    if reference.is_empty() || starts_with(reference, "#") || starts_with(reference, "mailto:")
        || starts_with(reference, "tel:") || starts_with(reference, "javascript:") || starts_with(
        reference,
        "data:",
    ) {
        return Request::Nothing;
    }
    if starts_with(reference, "//") {
        let mut text = scheme.to_string();
        text.append(":");
        text.append(reference);
        return Request::Absolute(text);
    }
    Request::Relative(trimmed)
}

/// The address that a reference on a page means, where it leads somewhere.
pub fn resolve_url(base_url: &PageUrl, raw_url: &str) -> (url: Option<PageUrl>)
    ensures
        url_view(url) == resolved(base_url@, raw_url@),
{
    match request_of(base_url.scheme(), raw_url) {
        Request::Nothing => None,
        Request::Absolute(text) => match PageUrl::parse(text.as_str()) {
            Ok(url) => Some(url),
            Err(_) => None,
        },
        Request::Relative(reference) => base_url.join(reference.as_str()),
    }
}

/// The parts of an address that make a short title: its host and the end of its path.
pub open spec fn title_parts(url: UrlView) -> Seq<Seq<char>> {
    let host = match url.host {
        Some(host) => seq![host],
        None => seq![],
    };
    let end = match url.segments {
        Some(segments) => if segments.len() > 0 && segments.last().len() > 0 {
            seq![segments.last()]
        } else {
            seq![]
        },
        None => seq![],
    };
    host + end
}

/// A short title for an address: its host and the end of its path, else the whole of it.
pub open spec fn short_title(url: UrlView) -> Seq<char> {
    if title_parts(url).len() == 0 {
        url.href
    } else {
        joined(title_parts(url), " / "@)
    }
}

/// A short title for an address: its host and the end of its path, else the whole of it.
pub fn compact_url_title(url: &PageUrl) -> (title: String)
    ensures
        title@ == short_title(url@),
{
    let mut parts: Vec<String> = Vec::new();
    if let Some(host) = url.host() {
        parts.push(host.to_string());
    }
    if let Some(segments) = url.segments() {
        assert(segments.deep_view().len() == segments@.len());
        if segments.len() > 0 {
            let last = &segments[segments.len() - 1];
            assert(segments.deep_view().last() == last@);
            if !last.as_str().is_empty() {
                parts.push(last.clone());
            }
        }
    }
    assert(parts.deep_view() =~= title_parts(url@));
    if parts.len() == 0 {
        url.href().to_string()
    } else {
        join(&parts, " / ")
    }
}

/// A slash parts the pieces of a text, and a text without a slash is one piece.
pub proof fn law_split_at_slashes(left: Seq<char>, right: Seq<char>)
    ensures
        split_at_slashes(left + seq!['/'] + right) == split_at_slashes(left) + split_at_slashes(
            right,
        ),
        !left.contains('/') ==> split_at_slashes(left) == seq![left],
        split_at_slashes(left).len() > 0,
    decreases left.len() + right.len(),
{
    let all = left + seq!['/'] + right;
    if left.len() > 0 {
        let less = left.drop_last();
        law_split_at_slashes(less, seq![]);
        assert(left.last() == left[left.len() - 1]);
        if !left.contains('/') {
            assert forall|k: int| 0 <= k < less.len() implies less[k] != '/' by {
                assert(less[k] == left[k]);
            }
            assert(split_at_slashes(left) =~= seq![less.push(left.last())]);
            assert(less.push(left.last()) =~= left);
        }
    } else {
        assert(left =~= Seq::<char>::empty());
        assert(split_at_slashes(left) =~= seq![left]);
    }
    if right.len() == 0 {
        assert(all.drop_last() =~= left);
        assert(right =~= Seq::<char>::empty());
        assert(split_at_slashes(right) =~= seq![Seq::<char>::empty()]);
        assert(split_at_slashes(all) =~= split_at_slashes(left) + split_at_slashes(right));
    } else {
        let less = right.drop_last();
        law_split_at_slashes(left, less);
        law_split_at_slashes(less, seq![]);
        assert(all.drop_last() =~= left + seq!['/'] + less);
        assert(all.last() == right.last());
        assert(split_at_slashes(all) =~= split_at_slashes(left) + split_at_slashes(right));
    }
}

/// A quote that may stand around a reference.
pub open spec fn is_reference_quote(c: char) -> bool {
    c == '"' || c == '\'' || c == '`'
}

/// White space and quotes around a reference make no difference.
pub proof fn law_bare_references(
    base: UrlView,
    left: Seq<char>,
    opening: Seq<char>,
    reference: Seq<char>,
    closing: Seq<char>,
    right: Seq<char>,
)
    requires
        is_blank(left),
        is_blank(right),
        forall|i: int| 0 <= i < opening.len() ==> is_reference_quote(#[trigger] opening[i]),
        forall|i: int| 0 <= i < closing.len() ==> is_reference_quote(#[trigger] closing[i]),
        reference.len() > 0,
        !is_white(reference[0]) && !is_reference_quote(reference[0]),
        !is_white(reference.last()) && !is_reference_quote(reference.last()),
    ensures
        resolved(base, left + (opening + reference + closing) + right) == resolved(base, reference),
        bare_reference(reference) == reference,
{
    let marks = seq!['"', '\'', '`'];
    assert(marks[0] == '"' && marks[1] == '\'' && marks[2] == '`');
    let quoted = opening + reference + closing;
    assert(quoted[0] == if opening.len() > 0 {
        opening[0]
    } else {
        reference[0]
    });
    assert(quoted.last() == if closing.len() > 0 {
        closing[closing.len() - 1]
    } else {
        reference.last()
    });
    law_trimming_keeps_the_core(left, quoted, right);
    law_stripping_keeps_the_core(opening, reference, closing, marks);
    law_trimming_keeps_the_core(seq![], reference, seq![]);
    law_stripping_keeps_the_core(seq![], reference, seq![], marks);
    assert(seq![] + reference + seq![] =~= reference);
}

/// A place on the same page, a mail address, a telephone number, a script or data lead to no page;
/// a reference that begins with two slashes means the address with the scheme of the page; and any
/// other means what the page's address joins it to.
pub proof fn law_references(base: UrlView, reference: Seq<char>)
    requires
        reference.len() > 0,
        !is_white(reference[0]) && !is_reference_quote(reference[0]),
        !is_white(reference.last()) && !is_reference_quote(reference.last()),
    ensures
        ({
            let dead = has_prefix(reference, "#"@) || has_prefix(reference, "mailto:"@)
                || has_prefix(reference, "tel:"@) || has_prefix(reference, "javascript:"@)
                || has_prefix(reference, "data:"@);
            &&& dead ==> resolved(base, reference) is None
            &&& !dead && has_prefix(reference, "//"@) ==> match url_text(
                base.scheme + ":"@ + reference,
            ) {
                Ok(href) => resolved(base, reference) == Some(url_at(href)),
                Err(_) => resolved(base, reference) is None,
            }
            &&& !dead && !has_prefix(reference, "//"@) ==> match joined_text(
                base.href,
                reference,
            ) {
                Some(href) => resolved(base, reference) == Some(url_at(href)),
                None => resolved(base, reference) is None,
            }
        }),
        resolved(base, seq![]) is None,
{
    law_bare_references(base, seq![], seq![], reference, seq![], seq![]);
    law_trimming_keeps_the_core(seq![], seq![], seq![]);
    law_stripping_keeps_the_core(seq![], seq![], seq![], seq!['"', '\'', '`']);
    assert(Seq::<char>::empty() + Seq::<char>::empty() + Seq::<char>::empty() =~= Seq::<
        char,
    >::empty());
}

/// What stands inside the quotes of a reference is what it asks for, with the white space there.
/// It asks for nothing where it is empty or leads to no page; with two slashes in front, for the
/// address of that host with the scheme of the page; else for what it means on the page.
pub proof fn law_requests(
    scheme: Seq<char>,
    left: Seq<char>,
    opening: Seq<char>,
    reference: Seq<char>,
    closing: Seq<char>,
    right: Seq<char>,
)
    requires
        is_blank(left),
        is_blank(right),
        forall|i: int| 0 <= i < opening.len() ==> is_reference_quote(#[trigger] opening[i]),
        forall|i: int| 0 <= i < closing.len() ==> is_reference_quote(#[trigger] closing[i]),
        reference.len() > 0 ==> !is_reference_quote(reference[0]) && !is_reference_quote(
            reference.last(),
        ),
        reference.len() > 0 && opening.len() == 0 ==> !is_white(reference[0]),
        reference.len() > 0 && closing.len() == 0 ==> !is_white(reference.last()),
    ensures
        ({
            let request = requested(scheme, left + (opening + reference + closing) + right);
            let dead = reference.len() == 0 || has_prefix(reference, "#"@) || has_prefix(
                reference,
                "mailto:"@,
            ) || has_prefix(reference, "tel:"@) || has_prefix(reference, "javascript:"@)
                || has_prefix(reference, "data:"@);
            &&& dead ==> request is Nothing
            &&& !dead && has_prefix(reference, "//"@) ==> request == RequestView::Absolute(
                scheme + ":"@ + reference,
            )
            &&& !dead && !has_prefix(reference, "//"@) ==> request == RequestView::Relative(
                reference,
            )
        }),
{
    let marks = seq!['"', '\'', '`'];
    assert(marks[0] == '"' && marks[1] == '\'' && marks[2] == '`');
    let quoted = opening + reference + closing;
    if quoted.len() > 0 {
        assert(quoted[0] == if opening.len() > 0 {
            opening[0]
        } else if reference.len() > 0 {
            reference[0]
        } else {
            closing[0]
        });
        assert(quoted.last() == if closing.len() > 0 {
            closing[closing.len() - 1]
        } else if reference.len() > 0 {
            reference.last()
        } else {
            opening[opening.len() - 1]
        });
    }
    law_trimming_keeps_the_core(left, quoted, right);
    law_stripping_keeps_the_core(opening, reference, closing, marks);
}

/// A reference means the address that it asks for: none where it asks for none, the absolute one
/// where that text is an address, and else what the page's address joins it to.
pub proof fn law_requests_are_resolved(base: UrlView, raw_url: Seq<char>)
    ensures
        match requested(base.scheme, raw_url) {
            RequestView::Nothing => resolved(base, raw_url) is None,
            RequestView::Absolute(text) => match url_text(text) {
                Ok(href) => resolved(base, raw_url) == Some(url_at(href)),
                Err(_) => resolved(base, raw_url) is None,
            },
            RequestView::Relative(reference) => match joined_text(base.href, reference) {
                Some(href) => resolved(base, raw_url) == Some(url_at(href)),
                None => resolved(base, raw_url) is None,
            },
        },
{
}

/// The path of an address has segments exactly where it begins with a slash, and the last of them
/// is what stands behind its last slash.
pub proof fn law_path_segments(href: Seq<char>, left: Seq<char>, last: Seq<char>)
    requires
        url_path(href) == left + "/"@ + last,
        !last.contains('/'),
    ensures
        left.len() == 0 || left[0] == '/' <==> url_at(href).segments is Some,
        url_at(href).segments matches Some(list) ==> list.len() > 0 && list.last() == last,
{
    reveal_strlit("/");
    let path = left + "/"@ + last;
    if left.len() == 0 {
        assert(path.subrange(0, 1) =~= "/"@);
        assert(path.skip(1) =~= last);
        law_split_at_slashes(last, seq![]);
    } else {
        assert(path[0] == left[0]);
        assert(path.take(1)[0] == path[0]);
        assert(path.subrange(0, 1)[0] == path[0]);
        if left[0] == '/' {
            assert(path.subrange(0, 1) =~= "/"@);
            assert(path.skip(1) =~= left.skip(1) + seq!['/'] + last);
            law_split_at_slashes(left.skip(1), last);
            law_split_at_slashes(last, seq![]);
        }
    }
}

/// The scheme of an address is what stands before its first colon.
pub proof fn law_schemes(scheme: Seq<char>, rest: Seq<char>)
    requires
        !scheme.contains(':'),
    ensures
        url_at(scheme + ":"@ + rest).scheme == scheme,
{
    reveal_strlit(":");
    let colon = ":"@;
    assert((scheme + colon).drop_last() =~= scheme);
    assert(!has_text(scheme, colon)) by {
        if has_text(scheme, colon) {
            let i = choose|i: int| occurs_at(scheme, colon, i);
            assert(scheme.subrange(i, i + 1)[0] == ':');
            assert(scheme[i] == ':');
        }
    }
    law_search(scheme, colon, rest);
    assert((scheme + colon + rest).take(scheme.len() as int) =~= scheme);
}

/// The title of an address is its host and the last segment of its path; the one of the two that
/// there is; or the whole address.
pub proof fn law_short_titles(url: UrlView, host: Seq<char>, last: Seq<char>)
    requires
        last.len() > 0,
    ensures
        ({
            let named = url.segments matches Some(list) && list.len() > 0 && list.last() == last;
            let nameless = url.segments matches Some(list) ==> list.len() == 0
                || list.last().len() == 0;
            &&& url.host == Some(host) && named ==> short_title(url) == host + " / "@ + last
            &&& url.host == Some(host) && nameless ==> short_title(url) == host
            &&& url.host is None && named ==> short_title(url) == last
            &&& url.host is None && nameless ==> short_title(url) == url.href
        }),
{
    law_joining(seq![host], seq![last], " / "@);
    law_joining(seq![host], seq![], " / "@);
    law_joining(seq![last], seq![], " / "@);
    assert(seq![host] + Seq::<Seq<char>>::empty() =~= seq![host]);
    assert(Seq::<Seq<char>>::empty() + seq![last] =~= seq![last]);
}

} // verus!
