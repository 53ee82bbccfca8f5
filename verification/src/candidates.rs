//! The links of a page that are worth showing, the best first.

use vstd::prelude::*;

use crate::address::{
    compact_url_title, resolve_url, resolved, short_title, url_at, PageUrl, UrlView,
};
use crate::classify::{
    classified, classify_candidate, is_direct_file, kind_view, law_files_are_classified,
};
use crate::harvest::{harvest_urls_from_text, is_listed, urls_in};
use crate::html::{
    element_label, element_references, elements_view, is_readable, label_of, link_elements,
    page_elements, references_of, ElementView, PageElement,
};
use crate::lists::reversed;
use crate::probe::{entries_view, EntryView, ProbeEntry};
use crate::text::{clean_label, cleaned, comes_before, precedes};

verus! {

/// The addresses met so far, and the entries made of those worth showing, with their scores.
#[verifier::ext_equal]
pub struct Finds {
    pub seen: Seq<Seq<char>>,
    pub scored: Seq<(i32, EntryView)>,
}

/// What a list of scored entries says.
pub open spec fn scored_view(scored: Seq<(i32, ProbeEntry)>) -> Seq<(i32, EntryView)> {
    scored.map_values(|find: (i32, ProbeEntry)| (find.0, find.1@))
}

/// The finds in the given lists.
pub open spec fn finds_of(seen: Vec<String>, scored: Vec<(i32, ProbeEntry)>) -> Finds {
    Finds { seen: seen.deep_view(), scored: scored_view(scored@) }
}

/// The entry made of a link: titled by its label, else by its address.
pub open spec fn link_entry(
    url: UrlView,
    kind: Seq<char>,
    label: Seq<char>,
    tag: Seq<char>,
) -> EntryView {
    EntryView {
        id: None,
        title: Some(
            if label.len() == 0 {
                short_title(url)
            } else {
                cleaned(label)
            },
        ),
        url: url.href,
        webpage_url: Some(url.href),
        duration: None,
        kind: Some(kind),
        source: Some(tag),
        resolutions: seq![],
    }
}

/// The finds after a link to `url` of the given kind and score. An address met before changes
/// nothing, and one without a kind is only remembered.
pub open spec fn recorded(
    finds: Finds,
    url: UrlView,
    kind: Option<(Seq<char>, i32)>,
    label: Seq<char>,
    tag: Seq<char>,
) -> Finds {
    if finds.seen.contains(url.href) {
        finds
    } else {
        Finds {
            seen: finds.seen.push(url.href),
            scored: match kind {
                Some((name, score)) => finds.scored.push(
                    (score, link_entry(url, name, label, tag)),
                ),
                None => finds.scored,
            },
        }
    }
}

/// The finds after a reference on the page at the address `base`.
pub open spec fn pushed(
    finds: Finds,
    base: UrlView,
    raw_url: Seq<char>,
    label: Seq<char>,
    tag: Seq<char>,
) -> Finds {
    match resolved(base, raw_url) {
        Some(url) => recorded(finds, url, classified(url, tag, label), label, tag),
        None => finds,
    }
}

/// Takes in a link to `url` of the given kind and score.
pub fn record_candidate(
    url: PageUrl,
    kind: Option<(String, i32)>,
    label: &str,
    source_tag: &str,
    seen: &mut Vec<String>,
    scored: &mut Vec<(i32, ProbeEntry)>,
)
    ensures
        finds_of(*final(seen), *final(scored)) == recorded(
            finds_of(*old(seen), *old(scored)),
            url@,
            kind_view(kind),
            label@,
            source_tag@,
        ),
{
    let href = url.href().to_string();
    if is_listed(seen, &href) {
        return ;
    }
    let ghost before = finds_of(*seen, *scored);
    seen.push(href.clone());
    assert(seen.deep_view() =~= before.seen.push(href@));
    if let Some((name, score)) = kind {
        let title = if label.is_empty() {
            compact_url_title(&url)
        } else {
            clean_label(label)
        };
        let ghost view = link_entry(url@, name@, label@, source_tag@);
        let entry = ProbeEntry {
            id: None,
            title: Some(title),
            url: href.clone(),
            webpage_url: Some(href),
            duration: None,
            kind: Some(name),
            source: Some(source_tag.to_string()),
            resolutions: Vec::new(),
        };
        assert(entry@ =~= view);
        scored.push((score, entry));
        assert(scored_view(scored@) =~= before.scored.push((score, view)));
    }
}

/// Takes in a reference on the page `base_url`.
pub fn push_candidate(
    base_url: &PageUrl,
    raw_url: &str,
    label: &str,
    source_tag: &str,
    seen: &mut Vec<String>,
    scored: &mut Vec<(i32, ProbeEntry)>,
)
    ensures
        finds_of(*final(seen), *final(scored)) == pushed(
            finds_of(*old(seen), *old(scored)),
            base_url@,
            raw_url@,
            label@,
            source_tag@,
        ),
{
    if let Some(url) = resolve_url(base_url, raw_url) {
        let kind = classify_candidate(&url, source_tag, label);
        record_candidate(url, kind, label, source_tag, seen, scored);
    }
}

/// The finds after several references with the same label and tag.
pub open spec fn pushed_all(
    finds: Finds,
    base: UrlView,
    references: Seq<Seq<char>>,
    label: Seq<char>,
    tag: Seq<char>,
) -> Finds
    decreases references.len(),
{
    if references.len() == 0 {
        finds
    } else {
        pushed(
            pushed_all(finds, base, references.drop_last(), label, tag),
            base,
            references.last(),
            label,
            tag,
        )
    }
}

fn push_candidates(
    base_url: &PageUrl,
    references: &Vec<String>,
    label: &str,
    source_tag: &str,
    seen: &mut Vec<String>,
    scored: &mut Vec<(i32, ProbeEntry)>,
)
    ensures
        finds_of(*final(seen), *final(scored)) == pushed_all(
            finds_of(*old(seen), *old(scored)),
            base_url@,
            references.deep_view(),
            label@,
            source_tag@,
        ),
{
    let ghost all = references.deep_view();
    let ghost start = finds_of(*seen, *scored);
    let mut i: usize = 0;
    while i < references.len()
        invariant
            all == references.deep_view(),
            i <= references@.len(),
            finds_of(*seen, *scored) == pushed_all(
                start,
                base_url@,
                all.take(i as int),
                label@,
                source_tag@,
            ),
        decreases references@.len() - i,
    {
        assert(all.take(i + 1).drop_last() =~= all.take(i as int));
        push_candidate(base_url, references[i].as_str(), label, source_tag, seen, scored);
        i += 1;
    }
    assert(all.take(i as int) =~= all);
}

/// The finds after the references of an element.
pub open spec fn pushed_element(finds: Finds, base: UrlView, element: ElementView) -> Finds {
    pushed_all(
        finds,
        base,
        references_of(element),
        label_of(element, element.tag),
        element.tag,
    )
}

/// The finds after the references of several elements.
pub open spec fn pushed_elements(finds: Finds, base: UrlView, elements: Seq<ElementView>) -> Finds
    decreases elements.len(),
{
    if elements.len() == 0 {
        finds
    } else {
        pushed_element(
            pushed_elements(finds, base, elements.drop_last()),
            base,
            elements.last(),
        )
    }
}

/// No finds.
pub open spec fn no_finds() -> Finds {
    Finds { seen: seq![], scored: seq![] }
}

/// The finds on a page: the references of its elements, then the addresses in its text.
pub open spec fn page_finds(
    base: UrlView,
    elements: Seq<ElementView>,
    urls: Seq<Seq<char>>,
) -> Finds {
    pushed_all(pushed_elements(no_finds(), base, elements), base, urls, seq![], "html"@)
}

/// The one find comes before the other: it has a higher score, or the same score and an address
/// that comes first.
pub open spec fn ranks_before(left: (i32, EntryView), right: (i32, EntryView)) -> bool {
    left.0 > right.0 || (left.0 == right.0 && precedes(left.1.url, right.1.url))
}

/// The ranked list with one more find, behind those that it does not come before.
pub open spec fn ranked_with(list: Seq<(i32, EntryView)>, find: (i32, EntryView)) -> Seq<
    (i32, EntryView),
>
    decreases list.len(),
{
    if list.len() == 0 || ranks_before(find, list[0]) {
        seq![find] + list
    } else {
        seq![list[0]] + ranked_with(list.skip(1), find)
    }
}

/// The finds by rank, those of the same rank in the order in which they were made.
pub open spec fn ranked(finds: Seq<(i32, EntryView)>) -> Seq<(i32, EntryView)>
    decreases finds.len(),
{
    if finds.len() == 0 {
        seq![]
    } else {
        ranked_with(ranked(finds.drop_last()), finds.last())
    }
}

/// No find of the list comes before one that stands before it.
pub open spec fn is_ranked(list: Seq<(i32, EntryView)>) -> bool {
    forall|i: int, j: int| 0 <= i < j < list.len() ==> !ranks_before(list[j], list[i])
}

proof fn lemma_code_points_differ(a: char, b: char)
    requires
        a != b,
    ensures
        a as u32 != b as u32,
{
}

proof fn lemma_precedes_is_total(a: Seq<char>, b: Seq<char>)
    requires
        a != b,
    ensures
        precedes(a, b) || precedes(b, a),
    decreases a.len(),
{
    if a.len() == 0 && b.len() == 0 {
        assert(a =~= b);
    } else if a.len() > 0 && b.len() > 0 && a[0] == b[0] {
        if a.skip(1) == b.skip(1) {
            assert(a =~= seq![a[0]] + a.skip(1));
            assert(b =~= seq![b[0]] + b.skip(1));
        }
        lemma_precedes_is_total(a.skip(1), b.skip(1));
    } else if a.len() > 0 && b.len() > 0 {
        lemma_code_points_differ(a[0], b[0]);
    }
}

proof fn lemma_precedes_is_order(a: Seq<char>, b: Seq<char>, c: Seq<char>)
    ensures
        !precedes(a, a),
        precedes(a, b) && precedes(b, c) ==> precedes(a, c),
    decreases a.len() + b.len() + c.len(),
{
    if a.len() > 0 && b.len() > 0 && c.len() > 0 {
        lemma_precedes_is_order(a.skip(1), b.skip(1), c.skip(1));
    } else if a.len() > 0 && b.len() > 0 {
        lemma_precedes_is_order(a.skip(1), b.skip(1), c);
    } else if a.len() > 0 {
        lemma_precedes_is_order(a.skip(1), b, c);
    }
}

/// A find that comes before another comes before all that the other does not follow.
proof fn lemma_rank_is_order(a: (i32, EntryView), b: (i32, EntryView), c: (i32, EntryView))
    ensures
        !ranks_before(a, a),
        ranks_before(a, b) && ranks_before(b, c) ==> ranks_before(a, c),
        ranks_before(a, b) && !ranks_before(c, b) ==> ranks_before(a, c),
{
    lemma_precedes_is_order(a.1.url, b.1.url, c.1.url);
    lemma_precedes_is_order(b.1.url, c.1.url, a.1.url);
    if b.1.url != c.1.url {
        lemma_precedes_is_total(b.1.url, c.1.url);
    }
}

proof fn lemma_ranked_with_at(list: Seq<(i32, EntryView)>, find: (i32, EntryView), at: int)
    requires
        0 <= at <= list.len(),
        forall|k: int| 0 <= k < at ==> !ranks_before(find, #[trigger] list[k]),
        at < list.len() ==> ranks_before(find, list[at]),
    ensures
        ranked_with(list, find) == list.insert(at, find),
    decreases at,
{
    if at == 0 {
        assert(list.insert(0, find) =~= seq![find] + list);
    } else {
        let rest = list.skip(1);
        assert forall|k: int| 0 <= k < at - 1 implies !ranks_before(find, #[trigger] rest[k]) by {
            assert(rest[k] == list[k + 1]);
        }
        lemma_ranked_with_at(rest, find, at - 1);
        assert(!ranks_before(find, list[0]));
        assert(seq![list[0]] + rest.insert(at - 1, find) =~= list.insert(at, find));
    }
}

proof fn lemma_insertion_point(list: Seq<(i32, EntryView)>, find: (i32, EntryView)) -> (at: int)
    requires
        is_ranked(list),
    ensures
        0 <= at <= list.len(),
        forall|k: int| 0 <= k < at ==> !ranks_before(find, #[trigger] list[k]),
        forall|k: int| at <= k < list.len() ==> ranks_before(find, #[trigger] list[k]),
    decreases list.len(),
{
    if list.len() == 0 {
        0
    } else if ranks_before(find, list.last()) {
        let at = lemma_insertion_point(list.drop_last(), find);
        assert forall|k: int| 0 <= k < at implies !ranks_before(find, #[trigger] list[k]) by {
            assert(list.drop_last()[k] == list[k]);
        }
        assert forall|k: int| at <= k < list.len() implies ranks_before(
            find,
            #[trigger] list[k],
        ) by {
            if k < list.len() - 1 {
                assert(list.drop_last()[k] == list[k]);
            }
        }
        at
    } else {
        assert forall|k: int| 0 <= k < list.len() implies !ranks_before(find, #[trigger] list[k]) by {
            lemma_rank_is_order(find, list[k], list.last());
        }
        list.len() as int
    }
}

proof fn lemma_ranked_with(list: Seq<(i32, EntryView)>, find: (i32, EntryView))
    requires
        is_ranked(list),
    ensures
        is_ranked(ranked_with(list, find)),
        ranked_with(list, find).to_multiset() =~= list.to_multiset().insert(find),
        ranked_with(list, find).len() == list.len() + 1,
{
    let at = lemma_insertion_point(list, find);
    lemma_ranked_with_at(list, find, at);
    let result = list.insert(at, find);
    assert forall|i: int, j: int| 0 <= i < j < result.len() implies !ranks_before(
        result[j],
        result[i],
    ) by {
        let a = if i < at {
            list[i]
        } else if i == at {
            find
        } else {
            list[i - 1]
        };
        let b = if j < at {
            list[j]
        } else if j == at {
            find
        } else {
            list[j - 1]
        };
        assert(result[i] == a && result[j] == b);
        if i == at {
            assert(ranks_before(find, list[j - 1]));
            lemma_rank_is_order(find, list[j - 1], find);
        } else if j == at {
            assert(!ranks_before(find, list[i]));
        }
    }
    broadcast use vstd::seq_lib::group_to_multiset_ensures;

    assert(result.to_multiset() =~= list.to_multiset().insert(find));
}

/// Ranking puts the finds in order of rank, and neither loses one nor adds one.
pub proof fn law_ranking(finds: Seq<(i32, EntryView)>)
    ensures
        is_ranked(ranked(finds)),
        ranked(finds).to_multiset() == finds.to_multiset(),
        ranked(finds).len() == finds.len(),
    decreases finds.len(),
{
    broadcast use vstd::seq_lib::group_to_multiset_ensures;

    if finds.len() > 0 {
        law_ranking(finds.drop_last());
        lemma_ranked_with(ranked(finds.drop_last()), finds.last());
        assert(finds.drop_last().push(finds.last()) =~= finds);
    } else {
        assert(ranked(finds) =~= finds);
    }
}

fn is_before(left: &(i32, ProbeEntry), right: &(i32, ProbeEntry)) -> (before: bool)
    ensures
        before == ranks_before((left.0, left.1@), (right.0, right.1@)),
{
    left.0 > right.0 || (left.0 == right.0 && comes_before(
        left.1.url.as_str(),
        right.1.url.as_str(),
    ))
}

fn insert_find(list: &mut Vec<(i32, ProbeEntry)>, find: (i32, ProbeEntry))
    requires
        is_ranked(scored_view(old(list)@)),
    ensures
        scored_view(final(list)@) == ranked_with(scored_view(old(list)@), (find.0, find.1@)),
{
    let ghost view = scored_view(list@);
    let ghost item = (find.0, find.1@);
    let ghost at = lemma_insertion_point(view, item);
    let mut low: usize = 0;
    let mut high: usize = list.len();
    while low < high
        invariant
            list@ == old(list)@,
            view == scored_view(list@),
            item == (find.0, find.1@),
            low <= at <= high <= list@.len(),
            forall|k: int| 0 <= k < at ==> !ranks_before(item, #[trigger] view[k]),
            forall|k: int| at <= k < view.len() ==> ranks_before(item, #[trigger] view[k]),
        decreases high - low,
    {
        let middle: usize = low + (high - low) / 2;
        assert(view[middle as int] == (list@[middle as int].0, list@[middle as int].1@));
        if is_before(&find, &list[middle]) {
            high = middle;
        } else {
            low = middle + 1;
        }
    }
    proof {
        lemma_ranked_with_at(view, item, at);
    }
    list.insert(low, find);
    assert(scored_view(list@) =~= view.insert(at, item));
}

/// Puts the finds in order of rank.
pub fn rank(scored: Vec<(i32, ProbeEntry)>) -> (list: Vec<(i32, ProbeEntry)>)
    ensures
        scored_view(list@) == ranked(scored_view(scored@)),
{
    let ghost all = scored_view(scored@);
    let mut waiting = reversed(scored);
    let mut list: Vec<(i32, ProbeEntry)> = Vec::new();
    assert(scored_view(list@) =~= ranked(all.take(0)));
    let ghost mut done: int = 0;
    while waiting.len() > 0
        invariant
            0 <= done,
            done + waiting@.len() == all.len(),
            all == scored_view(scored@),
            waiting@ == scored@.skip(done).reverse(),
            scored_view(list@) == ranked(all.take(done)),
        decreases waiting@.len(),
    {
        proof {
            law_ranking(all.take(done));
        }
        assert(waiting@.last() == scored@[done]);
        if let Some(find) = waiting.pop() {
            assert(all.take(done + 1).drop_last() =~= all.take(done));
            assert(all.take(done + 1).last() == (find.0, find.1@));
            insert_find(&mut list, find);
            assert(waiting@ =~= scored@.skip(done + 1).reverse());
            proof {
                done = done + 1;
            }
        }
    }
    assert(all.take(done) =~= all);
    list
}

/// The entries of the finds.
pub open spec fn entries_found(finds: Seq<(i32, EntryView)>) -> Seq<EntryView> {
    finds.map_values(|find: (i32, EntryView)| find.1)
}

fn take_entries(list: Vec<(i32, ProbeEntry)>) -> (entries: Vec<ProbeEntry>)
    ensures
        entries_view(entries@) == entries_found(scored_view(list@)),
{
    let mut rest = reversed(list);
    let mut entries: Vec<ProbeEntry> = Vec::new();
    while rest.len() > 0
        invariant
            entries@.len() + rest@.len() == list@.len(),
            rest@ == list@.skip(entries@.len() as int).reverse(),
            forall|i: int| 0 <= i < entries@.len() ==> #[trigger] entries@[i] == list@[i].1,
        decreases rest@.len(),
    {
        let ghost done = entries@.len() as int;
        assert(rest@.last() == list@[done]);
        if let Some(find) = rest.pop() {
            let (_, entry) = find;
            entries.push(entry);
            assert(rest@ =~= list@.skip(done + 1).reverse());
        }
    }
    assert(entries_view(entries@) =~= entries_found(scored_view(list@)));
    entries
}

/// The entries for a page, the best first, of which the elements that may hold addresses and the
/// addresses in its text are given.
pub open spec fn candidates(
    base: UrlView,
    elements: Seq<ElementView>,
    urls: Seq<Seq<char>>,
) -> Seq<EntryView> {
    entries_found(ranked(page_finds(base, elements, urls).scored))
}

/// The entries for a page, the best first, of which the elements that may hold addresses and the
/// addresses in its text are given.
pub fn rank_candidates(base_url: &PageUrl, elements: &Vec<PageElement>, urls: &Vec<String>) -> (entries:
    Vec<ProbeEntry>)
    ensures
        entries_view(entries@) == candidates(
            base_url@,
            elements_view(elements@),
            urls.deep_view(),
        ),
{
    let mut seen: Vec<String> = Vec::new();
    let mut scored: Vec<(i32, ProbeEntry)> = Vec::new();
    assert(finds_of(seen, scored) =~= no_finds());
    let ghost all = elements_view(elements@);
    let mut i: usize = 0;
    while i < elements.len()
        invariant
            all == elements_view(elements@),
            i <= elements@.len(),
            finds_of(seen, scored) == pushed_elements(no_finds(), base_url@, all.take(i as int)),
        decreases elements@.len() - i,
    {
        assert(all.take(i + 1).drop_last() =~= all.take(i as int));
        assert(all.take(i + 1).last() == elements@[i as int]@);
        let element = &elements[i];
        let label = element_label(element, element.tag.as_str());
        let references = element_references(element);
        push_candidates(
            base_url,
            &references,
            label.as_str(),
            element.tag.as_str(),
            &mut seen,
            &mut scored,
        );
        i += 1;
    }
    assert(all.take(i as int) =~= all);
    proof {
        reveal_strlit("");
        assert(""@ =~= Seq::<char>::empty());
    }
    push_candidates(base_url, urls, "", "html", &mut seen, &mut scored);
    take_entries(rank(scored))
}

/// The entries for the page `html` at the address `base`, the best first.
pub open spec fn page_candidates(base: UrlView, html: Seq<char>) -> Seq<EntryView> {
    match link_elements(html) {
        Some(elements) => candidates(base, elements, urls_in(html)),
        None => seq![],
    }
}

/// The entries for the page `html` at the address `base_url`, the best first.
pub fn extract_page_candidates(base_url: &PageUrl, html: &str) -> (entries: Vec<ProbeEntry>)
    requires
        is_readable(html),
    ensures
        entries_view(entries@) == page_candidates(base_url@, html@),
{
    match page_elements(html) {
        Some(elements) => {
            let urls = harvest_urls_from_text(html);
            rank_candidates(base_url, &elements, &urls)
        },
        None => {
            let entries: Vec<ProbeEntry> = Vec::new();
            assert(entries_view(entries@) =~= Seq::<EntryView>::empty());
            entries
        },
    }
}

/// Some find is an entry for the address.
pub open spec fn has_find(finds: Seq<(i32, EntryView)>, href: Seq<char>) -> bool {
    exists|k: int| 0 <= k < finds.len() && (#[trigger] finds[k]).1.url == href
}

/// No two finds are entries for the same address.
pub open spec fn are_distinct(finds: Seq<(i32, EntryView)>) -> bool {
    forall|i: int, j: int|
        0 <= i < j < finds.len() ==> (#[trigger] finds[i]).1.url != (#[trigger] finds[j]).1.url
}

/// An entry as it is made of a link.
pub open spec fn is_link_entry(entry: EntryView) -> bool {
    &&& entry.id is None
    &&& entry.title is Some
    &&& entry.webpage_url == Some(entry.url)
    &&& entry.duration is None
    &&& entry.kind is Some
    &&& entry.source is Some
    &&& entry.resolutions.len() == 0
}

/// No address stands twice among the finds, every find is an entry for an address that was met,
/// and is made of a link.
pub open spec fn finds_ok(finds: Finds) -> bool {
    &&& finds.seen.no_duplicates()
    &&& are_distinct(finds.scored)
    &&& forall|k: int|
        0 <= k < finds.scored.len() ==> {
            &&& finds.seen.contains((#[trigger] finds.scored[k]).1.url)
            &&& is_link_entry(finds.scored[k].1)
        }
}

proof fn lemma_pushed_ok(
    finds: Finds,
    base: UrlView,
    raw_url: Seq<char>,
    label: Seq<char>,
    tag: Seq<char>,
)
    requires
        finds_ok(finds),
    ensures
        finds_ok(pushed(finds, base, raw_url, label, tag)),
{
    let after = pushed(finds, base, raw_url, label, tag);
    if let Some(url) = resolved(base, raw_url) {
        if !finds.seen.contains(url.href) {
            assert(after.seen.no_duplicates());
            assert forall|h: Seq<char>| finds.seen.contains(h) implies after.seen.contains(h) by {
                let k = choose|k: int| 0 <= k < finds.seen.len() && finds.seen[k] == h;
                assert(after.seen[k] == h);
            }
            assert(after.seen[finds.seen.len() as int] == url.href);
            assert forall|i: int, j: int| 0 <= i < j < after.scored.len() implies (
            #[trigger] after.scored[i]).1.url != (#[trigger] after.scored[j]).1.url by {
                assert(finds.scored[i].1.url == after.scored[i].1.url);
                assert(finds.seen.contains(finds.scored[i].1.url));
            }
        }
    }
}

proof fn lemma_pushed_all_ok(
    finds: Finds,
    base: UrlView,
    references: Seq<Seq<char>>,
    label: Seq<char>,
    tag: Seq<char>,
)
    requires
        finds_ok(finds),
    ensures
        finds_ok(pushed_all(finds, base, references, label, tag)),
    decreases references.len(),
{
    if references.len() > 0 {
        lemma_pushed_all_ok(finds, base, references.drop_last(), label, tag);
        lemma_pushed_ok(
            pushed_all(finds, base, references.drop_last(), label, tag),
            base,
            references.last(),
            label,
            tag,
        );
    }
}

proof fn lemma_pushed_elements_ok(finds: Finds, base: UrlView, elements: Seq<ElementView>)
    requires
        finds_ok(finds),
    ensures
        finds_ok(pushed_elements(finds, base, elements)),
    decreases elements.len(),
{
    if elements.len() > 0 {
        lemma_pushed_elements_ok(finds, base, elements.drop_last());
        let element = elements.last();
        lemma_pushed_all_ok(
            pushed_elements(finds, base, elements.drop_last()),
            base,
            references_of(element),
            label_of(element, element.tag),
            element.tag,
        );
    }
}

proof fn lemma_ranked_keeps(finds: Seq<(i32, EntryView)>)
    ensures
        forall|href: Seq<char>| #[trigger] has_find(ranked(finds), href) <==> has_find(finds, href),
        are_distinct(finds) ==> are_distinct(ranked(finds)),
        (forall|k: int| 0 <= k < finds.len() ==> is_link_entry((#[trigger] finds[k]).1)) ==> (
        forall|k: int|
            0 <= k < ranked(finds).len() ==> is_link_entry((#[trigger] ranked(finds)[k]).1)),
    decreases finds.len(),
{
    if finds.len() > 0 {
        let before = finds.drop_last();
        let find = finds.last();
        let list = ranked(before);
        lemma_ranked_keeps(before);
        law_ranking(before);
        let at = lemma_insertion_point(list, find);
        lemma_ranked_with_at(list, find, at);
        let result = list.insert(at, find);
        assert(forall|k: int| 0 <= k < before.len() ==> before[k] == finds[k]);
        assert(finds[before.len() as int] == find);
        assert forall|href: Seq<char>| #[trigger] has_find(result, href) <==> has_find(
            finds,
            href,
        ) by {
            if has_find(result, href) {
                let k = choose|k: int| 0 <= k < result.len() && (#[trigger] result[k]).1.url == href;
                if k < at {
                    assert(list[k] == result[k]);
                    assert(has_find(list, href));
                } else if k > at {
                    assert(list[k - 1] == result[k]);
                    assert(has_find(list, href));
                }
                if has_find(before, href) {
                    let m = choose|m: int|
                        0 <= m < before.len() && (#[trigger] before[m]).1.url == href;
                    assert(finds[m].1.url == href);
                }
            }
            if has_find(finds, href) {
                let m = choose|m: int| 0 <= m < finds.len() && (#[trigger] finds[m]).1.url == href;
                if m < before.len() {
                    assert(before[m].1.url == href);
                    assert(has_find(list, href));
                    let k = choose|k: int| 0 <= k < list.len() && (#[trigger] list[k]).1.url == href;
                    if k < at {
                        assert(result[k] == list[k]);
                    } else {
                        assert(result[k + 1] == list[k]);
                    }
                } else {
                    assert(result[at] == find);
                }
            }
        }
        if are_distinct(finds) {
            assert(are_distinct(before));
            assert forall|k: int| 0 <= k < list.len() implies (#[trigger] list[k]).1.url
                != find.1.url by {
                assert(has_find(list, list[k].1.url));
                let m = choose|m: int|
                    0 <= m < before.len() && (#[trigger] before[m]).1.url == list[k].1.url;
                assert(finds[m].1.url != finds[before.len() as int].1.url);
            }
            assert forall|i: int, j: int| 0 <= i < j < result.len() implies (
            #[trigger] result[i]).1.url != (#[trigger] result[j]).1.url by {
                if i < at {
                    assert(result[i] == list[i]);
                } else if i > at {
                    assert(result[i] == list[i - 1]);
                }
                if j < at {
                    assert(result[j] == list[j]);
                } else if j > at {
                    assert(result[j] == list[j - 1]);
                }
            }
        }
        if forall|k: int| 0 <= k < finds.len() ==> is_link_entry((#[trigger] finds[k]).1) {
            assert forall|k: int| 0 <= k < result.len() implies is_link_entry(
                (#[trigger] result[k]).1,
            ) by {
                if k < at {
                    assert(result[k] == list[k]);
                } else if k > at {
                    assert(result[k] == list[k - 1]);
                }
            }
        }
    }
}

/// The candidates of a page are entries made of its links, and no two have the same address.
pub proof fn law_candidates_are_distinct(
    base: UrlView,
    elements: Seq<ElementView>,
    urls: Seq<Seq<char>>,
)
    ensures
        forall|i: int, j: int|
            0 <= i < j < candidates(base, elements, urls).len() ==> (#[trigger] candidates(
                base,
                elements,
                urls,
            )[i]).url != (#[trigger] candidates(base, elements, urls)[j]).url,
        forall|i: int|
            0 <= i < candidates(base, elements, urls).len() ==> is_link_entry(
                #[trigger] candidates(base, elements, urls)[i],
            ),
{
    lemma_pushed_elements_ok(no_finds(), base, elements);
    let finds = page_finds(base, elements, urls);
    lemma_pushed_all_ok(
        pushed_elements(no_finds(), base, elements),
        base,
        urls,
        seq![],
        "html"@,
    );
    lemma_ranked_keeps(finds.scored);
    let list = ranked(finds.scored);
    assert(forall|i: int|
        0 <= i < list.len() ==> #[trigger] entries_found(list)[i] == list[i].1);
}

/// One of the references means that address.
pub open spec fn is_linked(base: UrlView, references: Seq<Seq<char>>, url: UrlView) -> bool {
    exists|j: int|
        0 <= j < references.len() && resolved(base, #[trigger] references[j]) == Some(url)
}

/// A reference of an element of the page, or an address in its text, means that address.
pub open spec fn is_referenced(
    base: UrlView,
    elements: Seq<ElementView>,
    urls: Seq<Seq<char>>,
    url: UrlView,
) -> bool {
    is_linked(base, urls, url) || exists|i: int|
        0 <= i < elements.len() && is_linked(base, references_of(#[trigger] elements[i]), url)
}

proof fn lemma_referenced_address(
    base: UrlView,
    elements: Seq<ElementView>,
    urls: Seq<Seq<char>>,
    url: UrlView,
)
    requires
        is_referenced(base, elements, urls, url),
    ensures
        url == url_at(url.href),
{
}

/// If the address was met, there is an entry for it.
spec fn is_kept(finds: Finds, href: Seq<char>) -> bool {
    finds.seen.contains(href) ==> has_find(finds.scored, href)
}

proof fn lemma_pushed_keeps(
    finds: Finds,
    base: UrlView,
    raw_url: Seq<char>,
    label: Seq<char>,
    tag: Seq<char>,
    href: Seq<char>,
)
    requires
        is_kept(finds, href),
        is_direct_file(url_at(href)),
    ensures
        is_kept(pushed(finds, base, raw_url, label, tag), href),
        finds.seen.contains(href) ==> pushed(finds, base, raw_url, label, tag).seen.contains(href),
        resolved(base, raw_url) matches Some(url) ==> pushed(
            finds,
            base,
            raw_url,
            label,
            tag,
        ).seen.contains(url.href),
{
    let after = pushed(finds, base, raw_url, label, tag);
    if let Some(url) = resolved(base, raw_url) {
        if !finds.seen.contains(url.href) {
            law_files_are_classified(url, tag, label);
            assert(after.seen[finds.seen.len() as int] == url.href);
            if finds.seen.contains(href) {
                let k = choose|k: int| 0 <= k < finds.seen.len() && finds.seen[k] == href;
                assert(after.seen[k] == href);
                let m = choose|m: int|
                    0 <= m < finds.scored.len() && (#[trigger] finds.scored[m]).1.url == href;
                assert(after.scored[m] == finds.scored[m]);
            }
            if url.href == href {
                assert(after.scored[finds.scored.len() as int].1.url == href);
            } else if after.seen.contains(href) {
                let k = choose|k: int| 0 <= k < after.seen.len() && after.seen[k] == href;
                assert(finds.seen[k] == href);
            }
        }
    }
}

proof fn lemma_pushed_all_keeps(
    finds: Finds,
    base: UrlView,
    references: Seq<Seq<char>>,
    label: Seq<char>,
    tag: Seq<char>,
    href: Seq<char>,
)
    requires
        is_kept(finds, href),
        is_direct_file(url_at(href)),
    ensures
        is_kept(pushed_all(finds, base, references, label, tag), href),
        finds.seen.contains(href) ==> pushed_all(
            finds,
            base,
            references,
            label,
            tag,
        ).seen.contains(href),
        forall|url: UrlView| #[trigger]
            is_linked(base, references, url) && url.href == href ==> pushed_all(
                finds,
                base,
                references,
                label,
                tag,
            ).seen.contains(href),
    decreases references.len(),
{
    if references.len() > 0 {
        let before = references.drop_last();
        let last = references.len() - 1;
        lemma_pushed_all_keeps(finds, base, before, label, tag, href);
        let middle = pushed_all(finds, base, before, label, tag);
        lemma_pushed_keeps(middle, base, references.last(), label, tag, href);
        assert forall|url: UrlView| #[trigger]
            is_linked(base, references, url) && url.href == href implies pushed_all(
            finds,
            base,
            references,
            label,
            tag,
        ).seen.contains(href) by {
            let j = choose|j: int|
                0 <= j < references.len() && resolved(base, #[trigger] references[j]) == Some(url);
            if j < last {
                assert(before[j] == references[j]);
                assert(is_linked(base, before, url));
            }
        }
    }
}

proof fn lemma_pushed_elements_keeps(
    finds: Finds,
    base: UrlView,
    elements: Seq<ElementView>,
    href: Seq<char>,
)
    requires
        is_kept(finds, href),
        is_direct_file(url_at(href)),
    ensures
        is_kept(pushed_elements(finds, base, elements), href),
        finds.seen.contains(href) ==> pushed_elements(finds, base, elements).seen.contains(href),
        forall|url: UrlView| #[trigger]
            is_referenced(base, elements, seq![], url) && url.href == href ==> pushed_elements(
                finds,
                base,
                elements,
            ).seen.contains(href),
    decreases elements.len(),
{
    if elements.len() > 0 {
        let before = elements.drop_last();
        let last = elements.len() - 1;
        let element = elements.last();
        assert(elements[last] == element);
        lemma_pushed_elements_keeps(finds, base, before, href);
        let middle = pushed_elements(finds, base, before);
        lemma_pushed_all_keeps(
            middle,
            base,
            references_of(element),
            label_of(element, element.tag),
            element.tag,
            href,
        );
        assert forall|url: UrlView| #[trigger]
            is_referenced(base, elements, seq![], url) && url.href == href implies pushed_elements(
            finds,
            base,
            elements,
        ).seen.contains(href) by {
            let i = choose|i: int|
                0 <= i < elements.len() && is_linked(
                    base,
                    references_of(#[trigger] elements[i]),
                    url,
                );
            if i < last {
                assert(before[i] == elements[i]);
                assert(is_referenced(base, before, seq![], url));
            }
        }
    }
}

/// A page's scan finds every file that the page refers to, in a link, in a handler or in the text
/// of a script.
pub proof fn law_files_are_found(
    base: UrlView,
    elements: Seq<ElementView>,
    urls: Seq<Seq<char>>,
    url: UrlView,
)
    requires
        is_referenced(base, elements, urls, url),
        is_direct_file(url),
    ensures
        exists|k: int|
            0 <= k < candidates(base, elements, urls).len() && (#[trigger] candidates(
                base,
                elements,
                urls,
            )[k]).url == url.href,
{
    let href = url.href;
    lemma_referenced_address(base, elements, urls, url);
    lemma_pushed_elements_keeps(no_finds(), base, elements, href);
    let middle = pushed_elements(no_finds(), base, elements);
    lemma_pushed_all_keeps(middle, base, urls, seq![], "html"@, href);
    let finds = page_finds(base, elements, urls);
    if !is_linked(base, urls, url) {
        assert(is_referenced(base, elements, seq![], url));
    }
    assert(finds.seen.contains(href));
    assert(has_find(finds.scored, href));
    lemma_ranked_keeps(finds.scored);
    let list = ranked(finds.scored);
    assert(has_find(list, href));
    let k = choose|k: int| 0 <= k < list.len() && (#[trigger] list[k]).1.url == href;
    assert(candidates(base, elements, urls)[k] == list[k].1);
}

/// The scan of a page finds every file whose address stands in the page's text, inside a script or
/// elsewhere.
pub proof fn law_files_in_text_are_found(base: UrlView, html: Seq<char>, i: int, url: UrlView)
    requires
        link_elements(html) is Some,
        0 <= i < urls_in(html).len(),
        resolved(base, urls_in(html)[i]) == Some(url),
        is_direct_file(url),
    ensures
        exists|k: int|
            0 <= k < page_candidates(base, html).len() && (#[trigger] page_candidates(
                base,
                html,
            )[k]).url == url.href,
{
    if let Some(elements) = link_elements(html) {
        assert(is_linked(base, urls_in(html), url));
        law_files_are_found(base, elements, urls_in(html), url);
        let entries = candidates(base, elements, urls_in(html));
        let k = choose|k: int|
            0 <= k < entries.len() && (#[trigger] entries[k]).url == url.href;
        assert(page_candidates(base, html)[k].url == url.href);
    }
}

/// A reference on a page, with the label and the tag of the element that holds it.
pub struct Link {
    pub reference: Seq<char>,
    pub label: Seq<char>,
    pub tag: Seq<char>,
}

/// References with the same label and tag.
pub open spec fn links_with(references: Seq<Seq<char>>, label: Seq<char>, tag: Seq<char>) -> Seq<
    Link,
> {
    references.map_values(|reference: Seq<char>| Link { reference, label, tag })
}

/// The links of the elements, in their order.
pub open spec fn element_links(elements: Seq<ElementView>) -> Seq<Link>
    decreases elements.len(),
{
    if elements.len() == 0 {
        seq![]
    } else {
        let element = elements.last();
        element_links(elements.drop_last()) + links_with(
            references_of(element),
            label_of(element, element.tag),
            element.tag,
        )
    }
}

/// The links of a page: those of its elements, and then the addresses in its text, which have no
/// label.
pub open spec fn page_links(elements: Seq<ElementView>, urls: Seq<Seq<char>>) -> Seq<Link> {
    element_links(elements) + links_with(urls, seq![], "html"@)
}

spec fn pushed_links(finds: Finds, base: UrlView, links: Seq<Link>) -> Finds
    decreases links.len(),
{
    if links.len() == 0 {
        finds
    } else {
        let link = links.last();
        pushed(
            pushed_links(finds, base, links.drop_last()),
            base,
            link.reference,
            link.label,
            link.tag,
        )
    }
}

proof fn lemma_pushed_links_add(finds: Finds, base: UrlView, left: Seq<Link>, right: Seq<Link>)
    ensures
        pushed_links(finds, base, left + right) == pushed_links(
            pushed_links(finds, base, left),
            base,
            right,
        ),
    decreases right.len(),
{
    if right.len() == 0 {
        assert(left + right =~= left);
    } else {
        lemma_pushed_links_add(finds, base, left, right.drop_last());
        assert((left + right).drop_last() =~= left + right.drop_last());
        assert((left + right).last() == right.last());
    }
}

proof fn lemma_pushed_all_links(
    finds: Finds,
    base: UrlView,
    references: Seq<Seq<char>>,
    label: Seq<char>,
    tag: Seq<char>,
)
    ensures
        pushed_all(finds, base, references, label, tag) == pushed_links(
            finds,
            base,
            links_with(references, label, tag),
        ),
    decreases references.len(),
{
    if references.len() > 0 {
        lemma_pushed_all_links(finds, base, references.drop_last(), label, tag);
        assert(links_with(references, label, tag).drop_last() =~= links_with(
            references.drop_last(),
            label,
            tag,
        ));
    }
}

proof fn lemma_pushed_element_links(base: UrlView, elements: Seq<ElementView>)
    ensures
        pushed_elements(no_finds(), base, elements) == pushed_links(
            no_finds(),
            base,
            element_links(elements),
        ),
    decreases elements.len(),
{
    if elements.len() > 0 {
        let element = elements.last();
        let label = label_of(element, element.tag);
        lemma_pushed_element_links(base, elements.drop_last());
        lemma_pushed_all_links(
            pushed_elements(no_finds(), base, elements.drop_last()),
            base,
            references_of(element),
            label,
            element.tag,
        );
        lemma_pushed_links_add(
            no_finds(),
            base,
            element_links(elements.drop_last()),
            links_with(references_of(element), label, element.tag),
        );
    }
}

proof fn lemma_page_links(base: UrlView, elements: Seq<ElementView>, urls: Seq<Seq<char>>)
    ensures
        page_finds(base, elements, urls) == pushed_links(
            no_finds(),
            base,
            page_links(elements, urls),
        ),
{
    lemma_pushed_element_links(base, elements);
    lemma_pushed_all_links(
        pushed_elements(no_finds(), base, elements),
        base,
        urls,
        seq![],
        "html"@,
    );
    lemma_pushed_links_add(
        no_finds(),
        base,
        element_links(elements),
        links_with(urls, seq![], "html"@),
    );
}

/// The link leads to the address, and no link before it leads there.
pub open spec fn is_first_link(base: UrlView, links: Seq<Link>, i: int, url: UrlView) -> bool {
    &&& 0 <= i < links.len()
    &&& resolved(base, links[i].reference) == Some(url)
    &&& forall|j: int|
        0 <= j < i ==> (resolved(base, (#[trigger] links[j]).reference) matches Some(other)
            ==> other.href != url.href)
}

/// The entry shows a link to the address: under the link's label, or under the title of the address
/// where it has none, as what the link is classified as.
pub open spec fn shows_link(entry: EntryView, link: Link, url: UrlView) -> bool {
    &&& classified(url, link.tag, link.label) matches Some((kind, _)) && entry.kind == Some(kind)
    &&& link.label.len() > 0 ==> entry.title == Some(cleaned(link.label))
    &&& link.label.len() == 0 ==> entry.title == Some(short_title(url))
    &&& entry.url == url.href
    &&& entry.webpage_url == Some(url.href)
    &&& entry.source == Some(link.tag)
    &&& entry.id is None
    &&& entry.duration is None
    &&& entry.resolutions.len() == 0
}

/// The entry shows the first link to its address, and has the score of that link.
spec fn is_made_by(base: UrlView, links: Seq<Link>, find: (i32, EntryView), i: int) -> bool {
    &&& 0 <= i < links.len()
    &&& match resolved(base, links[i].reference) {
        Some(url) => {
            &&& is_first_link(base, links, i, url)
            &&& shows_link(find.1, links[i], url)
            &&& classified(url, links[i].tag, links[i].label) matches Some((_, score)) && find.0
                == score
        },
        None => false,
    }
}

/// The entry shows the first link to its address.
spec fn is_made(base: UrlView, links: Seq<Link>, find: (i32, EntryView)) -> bool {
    exists|i: int| is_made_by(base, links, find, i)
}

/// One of the finds shows that link.
spec fn is_shown(base: UrlView, links: Seq<Link>, scored: Seq<(i32, EntryView)>, i: int) -> bool {
    exists|k: int| 0 <= k < scored.len() && is_made_by(base, links, #[trigger] scored[k], i)
}

spec fn is_met(base: UrlView, links: Seq<Link>, href: Seq<char>) -> bool {
    exists|i: int|
        0 <= i < links.len() && (resolved(base, (#[trigger] links[i]).reference) matches Some(url)
            && url.href == href)
}

proof fn lemma_links(base: UrlView, links: Seq<Link>)
    ensures
        ({
            let finds = pushed_links(no_finds(), base, links);
            &&& forall|href: Seq<char>|
                finds.seen.contains(href) <==> #[trigger] is_met(base, links, href)
            &&& forall|k: int|
                0 <= k < finds.scored.len() ==> is_made(base, links, #[trigger] finds.scored[k])
            &&& forall|i: int, url: UrlView| #[trigger]
                is_first_link(base, links, i, url) && classified(url, links[i].tag, links[i].label)
                    is Some ==> is_shown(base, links, finds.scored, i)
        }),
    decreases links.len(),
{
    let finds = pushed_links(no_finds(), base, links);
    if links.len() == 0 {
        assert forall|href: Seq<char>| finds.seen.contains(href) <==> #[trigger] is_met(
            base,
            links,
            href,
        ) by {}
    } else {
        let before = links.drop_last();
        let last = links.len() - 1;
        let link = links.last();
        assert(links[last] == link);
        lemma_links(base, before);
        let old_finds = pushed_links(no_finds(), base, before);
        assert forall|href: Seq<char>| is_met(base, before, href) implies #[trigger] is_met(
            base,
            links,
            href,
        ) by {
            let i = choose|i: int|
                0 <= i < before.len() && (resolved(base, (#[trigger] before[i]).reference) matches Some(
                    url,
                ) && url.href == href);
            assert(links[i] == before[i]);
        }
        assert forall|find: (i32, EntryView), i: int| #[trigger]
            is_made_by(base, before, find, i) implies is_made_by(base, links, find, i) by {
            assert(links[i] == before[i]);
            if let Some(url) = resolved(base, links[i].reference) {
                assert forall|j: int| 0 <= j < i implies (resolved(
                    base,
                    (#[trigger] links[j]).reference,
                ) matches Some(other) ==> other.href != url.href) by {
                    assert(links[j] == before[j]);
                }
            }
        }
        match resolved(base, link.reference) {
            None => {
                assert forall|href: Seq<char>| #[trigger] is_met(base, links, href) implies is_met(
                    base,
                    before,
                    href,
                ) by {
                    let i = choose|i: int|
                        0 <= i < links.len() && (resolved(base, (#[trigger] links[i]).reference)
                            matches Some(url) && url.href == href);
                    assert(before[i] == links[i]);
                }
            },
            Some(url) => {
                assert(is_met(base, links, url.href));
                let kind = classified(url, link.tag, link.label);
                if old_finds.seen.contains(url.href) {
                    assert forall|href: Seq<char>| #[trigger] is_met(
                        base,
                        links,
                        href,
                    ) implies is_met(base, before, href) by {
                        let i = choose|i: int|
                            0 <= i < links.len() && (resolved(base, (#[trigger] links[i]).reference)
                                matches Some(url) && url.href == href);
                        if i < last {
                            assert(before[i] == links[i]);
                        } else {
                            assert(is_met(base, before, url.href));
                        }
                    }
                } else {
                    assert(finds.seen == old_finds.seen.push(url.href));
                    assert(finds.seen[old_finds.seen.len() as int] == url.href);
                    assert forall|href: Seq<char>| old_finds.seen.contains(
                        href,
                    ) implies finds.seen.contains(href) by {
                        let k = choose|k: int|
                            0 <= k < old_finds.seen.len() && old_finds.seen[k] == href;
                        assert(finds.seen[k] == href);
                    }
                    assert forall|href: Seq<char>| finds.seen.contains(href) implies href
                        == url.href || old_finds.seen.contains(href) by {
                        let k = choose|k: int| 0 <= k < finds.seen.len() && finds.seen[k] == href;
                        if k < old_finds.seen.len() {
                            assert(old_finds.seen[k] == href);
                        }
                    }
                    assert forall|href: Seq<char>| #[trigger] is_met(
                        base,
                        links,
                        href,
                    ) implies href == url.href || is_met(base, before, href) by {
                        let i = choose|i: int|
                            0 <= i < links.len() && (resolved(base, (#[trigger] links[i]).reference)
                                matches Some(url) && url.href == href);
                        if i < last {
                            assert(before[i] == links[i]);
                        }
                    }
                    assert(!is_met(base, before, url.href));
                    assert forall|j: int| 0 <= j < last implies (resolved(
                        base,
                        (#[trigger] links[j]).reference,
                    ) matches Some(other) ==> other.href != url.href) by {
                        assert(before[j] == links[j]);
                        if let Some(other) = resolved(base, before[j].reference) {
                            if other.href == url.href {
                                assert(is_met(base, before, url.href));
                            }
                        }
                    }
                    assert(is_first_link(base, links, last, url));
                    if let Some((name, score)) = kind {
                        let entry = link_entry(url, name, link.label, link.tag);
                        assert(shows_link(entry, link, url));
                        assert(is_made_by(base, links, (score, entry), last));
                        assert(finds.scored[old_finds.scored.len() as int] == (score, entry));
                    }
                }
            },
        }
        assert forall|k: int| 0 <= k < finds.scored.len() implies is_made(
            base,
            links,
            #[trigger] finds.scored[k],
        ) by {
            if k < old_finds.scored.len() {
                assert(finds.scored[k] == old_finds.scored[k]);
                assert(is_made(base, before, old_finds.scored[k]));
                let i = choose|i: int| is_made_by(base, before, old_finds.scored[k], i);
                assert(is_made_by(base, links, finds.scored[k], i));
            } else {
                assert(is_made_by(base, links, finds.scored[k], last));
            }
        }
        assert forall|i: int, url: UrlView| #[trigger]
            is_first_link(base, links, i, url) && classified(url, links[i].tag, links[i].label)
                is Some implies is_shown(base, links, finds.scored, i) by {
            if i < last {
                assert(links[i] == before[i]);
                assert forall|j: int| 0 <= j < i implies (resolved(
                    base,
                    (#[trigger] before[j]).reference,
                ) matches Some(other) ==> other.href != url.href) by {
                    assert(links[j] == before[j]);
                }
                assert(is_first_link(base, before, i, url));
                assert(is_shown(base, before, old_finds.scored, i));
                let k = choose|k: int|
                    0 <= k < old_finds.scored.len() && is_made_by(
                        base,
                        before,
                        #[trigger] old_finds.scored[k],
                        i,
                    );
                assert(finds.scored[k] == old_finds.scored[k]);
                assert(is_made_by(base, links, finds.scored[k], i));
            } else {
                if is_met(base, before, url.href) {
                    let j = choose|j: int|
                        0 <= j < before.len() && (resolved(base, (#[trigger] before[j]).reference)
                            matches Some(other) && other.href == url.href);
                    assert(links[j] == before[j]);
                }
                assert(!old_finds.seen.contains(url.href));
                let k = old_finds.scored.len() as int;
                assert(is_made_by(base, links, finds.scored[k], i));
            }
        }
    }
}

proof fn lemma_ranked_members(finds: Seq<(i32, EntryView)>, find: (i32, EntryView))
    ensures
        ranked(finds).contains(find) <==> finds.contains(find),
{
    broadcast use vstd::seq_lib::group_to_multiset_ensures;

    law_ranking(finds);
    assert(ranked(finds).contains(find) <==> ranked(finds).to_multiset().count(find) > 0);
    assert(finds.contains(find) <==> finds.to_multiset().count(find) > 0);
}

/// The first link to an address decides: where it is classified, the address is among the
/// candidates, under the label of that link; and where it is not, the address is not among them.
pub proof fn law_first_links_are_listed(
    base: UrlView,
    elements: Seq<ElementView>,
    urls: Seq<Seq<char>>,
    i: int,
    url: UrlView,
)
    requires
        is_first_link(base, page_links(elements, urls), i, url),
    ensures
        ({
            let link = page_links(elements, urls)[i];
            let entries = candidates(base, elements, urls);
            &&& classified(url, link.tag, link.label) is Some ==> exists|k: int|
                0 <= k < entries.len() && shows_link(#[trigger] entries[k], link, url)
            &&& classified(url, link.tag, link.label) is None ==> forall|k: int|
                0 <= k < entries.len() ==> (#[trigger] entries[k]).url != url.href
        }),
{
    let links = page_links(elements, urls);
    let link = links[i];
    let entries = candidates(base, elements, urls);
    let finds = page_finds(base, elements, urls);
    let list = ranked(finds.scored);
    lemma_page_links(base, elements, urls);
    lemma_links(base, links);
    if classified(url, link.tag, link.label) is Some {
        assert(is_shown(base, links, finds.scored, i));
        let m = choose|m: int|
            0 <= m < finds.scored.len() && is_made_by(base, links, #[trigger] finds.scored[m], i);
        let find = finds.scored[m];
        assert(finds.scored.contains(find));
        lemma_ranked_members(finds.scored, find);
        let k = choose|k: int| 0 <= k < list.len() && list[k] == find;
        assert(entries[k] == find.1);
        assert(shows_link(entries[k], link, url));
    } else {
        assert forall|k: int| 0 <= k < entries.len() implies (#[trigger] entries[k]).url
            != url.href by {
            let find = list[k];
            assert(entries[k] == find.1);
            assert(list.contains(find));
            lemma_ranked_members(finds.scored, find);
            let m = choose|m: int| 0 <= m < finds.scored.len() && finds.scored[m] == find;
            assert(is_made(base, links, finds.scored[m]));
            let j = choose|j: int| is_made_by(base, links, finds.scored[m], j);
            if find.1.url == url.href {
                if j < i {
                    assert(resolved(base, links[j].reference) is Some);
                } else if i < j {
                    assert(resolved(base, links[i].reference) is Some);
                }
            }
        }
    }
}

/// Every candidate shows the first link of the page to its address.
pub proof fn law_candidates_show_links(
    base: UrlView,
    elements: Seq<ElementView>,
    urls: Seq<Seq<char>>,
    k: int,
)
    requires
        0 <= k < candidates(base, elements, urls).len(),
    ensures
        exists|i: int, url: UrlView| #[trigger]
            is_first_link(base, page_links(elements, urls), i, url) && shows_link(
                candidates(base, elements, urls)[k],
                page_links(elements, urls)[i],
                url,
            ),
{
    let links = page_links(elements, urls);
    let finds = page_finds(base, elements, urls);
    let list = ranked(finds.scored);
    lemma_page_links(base, elements, urls);
    lemma_links(base, links);
    let find = list[k];
    assert(candidates(base, elements, urls)[k] == find.1);
    assert(list.contains(find));
    lemma_ranked_members(finds.scored, find);
    let m = choose|m: int| 0 <= m < finds.scored.len() && finds.scored[m] == find;
    assert(is_made(base, links, finds.scored[m]));
    let i = choose|i: int| is_made_by(base, links, finds.scored[m], i);
    let url = resolved(base, links[i].reference)->Some_0;
    assert(is_first_link(base, links, i, url));
}

/// Every reference of every element of a page is one of its links, with the label and the tag of
/// the element; and so is every address in its text, without a label.
pub proof fn law_page_links(elements: Seq<ElementView>, urls: Seq<Seq<char>>, e: int, r: int)
    ensures
        0 <= e < elements.len() && 0 <= r < references_of(elements[e]).len() ==> exists|i: int|
            0 <= i < page_links(elements, urls).len() && #[trigger] page_links(elements, urls)[i]
                == (Link {
                reference: references_of(elements[e])[r],
                label: label_of(elements[e], elements[e].tag),
                tag: elements[e].tag,
            }),
        0 <= r < urls.len() ==> exists|i: int|
            0 <= i < page_links(elements, urls).len() && #[trigger] page_links(elements, urls)[i]
                == (Link { reference: urls[r], label: seq![], tag: "html"@ }),
{
    let links = page_links(elements, urls);
    if 0 <= e < elements.len() && 0 <= r < references_of(elements[e]).len() {
        let i = lemma_element_links(elements, e, r);
        assert(links[i] == element_links(elements)[i]);
    }
    if 0 <= r < urls.len() {
        let i = element_links(elements).len() + r;
        assert(links[i] == (Link { reference: urls[r], label: seq![], tag: "html"@ }));
    }
}

proof fn lemma_element_links(elements: Seq<ElementView>, e: int, r: int) -> (i: int)
    requires
        0 <= e < elements.len(),
        0 <= r < references_of(elements[e]).len(),
    ensures
        0 <= i < element_links(elements).len(),
        element_links(elements)[i] == (Link {
            reference: references_of(elements[e])[r],
            label: label_of(elements[e], elements[e].tag),
            tag: elements[e].tag,
        }),
    decreases elements.len(),
{
    let before = elements.drop_last();
    if e < before.len() {
        assert(before[e] == elements[e]);
        lemma_element_links(before, e, r)
    } else {
        element_links(before).len() + r
    }
}

/// The rank of a kind.
pub open spec fn rank_of_kind(kind: Seq<char>) -> int {
    if kind == "HLS playlist"@ {
        120
    } else if kind == "DASH manifest"@ {
        115
    } else if kind == "video"@ {
        110
    } else if kind == "media source"@ {
        95
    } else if kind == "audio"@ {
        90
    } else if kind == "archivo"@ {
        88
    } else if kind == "reproductor"@ {
        85
    } else if kind == "boton descarga"@ {
        84
    } else if kind == "link descarga"@ {
        84
    } else if kind == "posible reproductor"@ {
        70
    } else if kind == "subtitulo"@ {
        55
    } else if kind == "link video"@ {
        45
    } else {
        0
    }
}

proof fn lemma_rank_of_kind(url: UrlView, tag: Seq<char>, label: Seq<char>)
    ensures
        classified(url, tag, label) matches Some((kind, score)) ==> score == rank_of_kind(kind),
{
    reveal_strlit("HLS playlist");
    reveal_strlit("DASH manifest");
    reveal_strlit("video");
    reveal_strlit("media source");
    reveal_strlit("audio");
    reveal_strlit("archivo");
    reveal_strlit("reproductor");
    reveal_strlit("boton descarga");
    reveal_strlit("link descarga");
    reveal_strlit("posible reproductor");
    reveal_strlit("subtitulo");
    reveal_strlit("link video");
    assert("HLS playlist"@.len() == 12);
    assert("DASH manifest"@.len() == 13);
    assert("video"@.len() == 5);
    assert("media source"@.len() == 12);
    assert("audio"@.len() == 5);
    assert("archivo"@.len() == 7);
    assert("reproductor"@.len() == 11);
    assert("boton descarga"@.len() == 14);
    assert("link descarga"@.len() == 13);
    assert("posible reproductor"@.len() == 19);
    assert("subtitulo"@.len() == 9);
    assert("link video"@.len() == 10);
    assert("HLS playlist"@[0] != "media source"@[0]);
    assert("DASH manifest"@[0] != "link descarga"@[0]);
    assert("video"@[0] != "audio"@[0]);
}

/// The best comes first: playlists before manifests, then videos, what media elements play, sound,
/// archives, players, downloads, possible players, subtitles, and links to videos at the end; and
/// what is of the same rank comes in the order of the addresses.
pub proof fn law_best_first(
    base: UrlView,
    elements: Seq<ElementView>,
    urls: Seq<Seq<char>>,
    i: int,
    j: int,
)
    requires
        0 <= i < j < candidates(base, elements, urls).len(),
    ensures
        ({
            let first = candidates(base, elements, urls)[i];
            let second = candidates(base, elements, urls)[j];
            match (first.kind, second.kind) {
                (Some(better), Some(worse)) => {
                    &&& rank_of_kind(better) >= rank_of_kind(worse)
                    &&& rank_of_kind(better) == rank_of_kind(worse) ==> !precedes(
                        second.url,
                        first.url,
                    )
                },
                _ => false,
            }
        }),
{
    let links = page_links(elements, urls);
    let finds = page_finds(base, elements, urls);
    let list = ranked(finds.scored);
    lemma_page_links(base, elements, urls);
    lemma_links(base, links);
    law_ranking(finds.scored);
    lemma_scored_kind(base, links, finds.scored, list[i]);
    lemma_scored_kind(base, links, finds.scored, list[j]);
    assert(!ranks_before(list[j], list[i]));
}

proof fn lemma_scored_kind(
    base: UrlView,
    links: Seq<Link>,
    scored: Seq<(i32, EntryView)>,
    find: (i32, EntryView),
)
    requires
        ranked(scored).contains(find),
        forall|k: int| 0 <= k < scored.len() ==> is_made(base, links, #[trigger] scored[k]),
    ensures
        find.1.kind matches Some(kind) && find.0 == rank_of_kind(kind),
{
    lemma_ranked_members(scored, find);
    let m = choose|m: int| 0 <= m < scored.len() && scored[m] == find;
    assert(is_made(base, links, scored[m]));
    let i = choose|i: int| is_made_by(base, links, scored[m], i);
    let url = resolved(base, links[i].reference)->Some_0;
    lemma_rank_of_kind(url, links[i].tag, links[i].label);
}

} // verus!
