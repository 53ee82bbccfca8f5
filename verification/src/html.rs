//! Pages as plain values, read with the `scraper` crate: elements, their labels and their links.

use vstd::prelude::*;
use vstd::string::StringSliceAdditionalSpecFns;

use crate::harvest::{harvest_navigation_targets, meta_refresh_target, refresh_target, targets_in};
use crate::lists::reversed;
use crate::text::{clean_label, cleaned, join, joined, law_cleaning, same_text, words};

verus! {

/// The longest text, in bytes, that the parser has room for.
pub const MAX_TEXT_BYTES: u64 = 0x8000_0000;

/// The room, in bytes, that the parser may need for one byte of a page: it replaces a NUL by a
/// character of three bytes, and a character reference, which begins with an ampersand, by
/// characters that take at most one byte more than the reference.
pub open spec fn byte_room(byte: u8) -> nat {
    if byte == 0 {
        3
    } else if byte == 38 {
        2
    } else {
        1
    }
}

/// The room, in bytes, that the parser may need for a page.
pub open spec fn page_room(bytes: Seq<u8>) -> nat
    decreases bytes.len(),
{
    if bytes.len() == 0 {
        0
    } else {
        page_room(bytes.drop_last()) + byte_room(bytes.last())
    }
}

/// A page that is not too long to be read.
pub open spec fn is_readable(html: &str) -> bool {
    page_room(html.spec_bytes()) <= MAX_TEXT_BYTES
}

proof fn lemma_page_room_grows(bytes: Seq<u8>, n: int)
    requires
        0 <= n <= bytes.len(),
    ensures
        page_room(bytes.take(n)) <= page_room(bytes),
    decreases bytes.len() - n,
{
    if n == bytes.len() {
        assert(bytes.take(n) =~= bytes);
    } else {
        lemma_page_room_grows(bytes, n + 1);
        assert(bytes.take(n + 1).drop_last() =~= bytes.take(n));
    }
}

/// Whether a page is not too long to be read.
pub fn can_be_read(html: &str) -> (readable: bool)
    ensures
        readable == is_readable(html),
{
    let bytes = html.as_bytes();
    let mut room: u64 = 0;
    let mut i: usize = 0;
    while i < bytes.len()
        invariant
            bytes@ == html.spec_bytes(),
            i <= bytes@.len(),
            room == page_room(bytes@.take(i as int)),
            room <= MAX_TEXT_BYTES,
        decreases bytes@.len() - i,
    {
        assert(bytes@.take(i + 1).drop_last() =~= bytes@.take(i as int));
        if bytes[i] == 0 {
            room += 3;
        } else if bytes[i] == 38 {
            room += 2;
        } else {
            room += 1;
        }
        i += 1;
        if room > MAX_TEXT_BYTES {
            proof {
                lemma_page_room_grows(bytes@, i as int);
            }
            return false;
        }
    }
    assert(bytes@.take(i as int) =~= bytes@);
    true
}

/// An element of a page: its tag, the texts in it, and attributes with their values.
#[derive(Debug)]
pub struct PageElement {
    pub tag: String,
    pub texts: Vec<String>,
    pub attributes: Vec<(String, String)>,
}

/// An element of a page.
#[verifier::ext_equal]
pub struct ElementView {
    pub tag: Seq<char>,
    pub texts: Seq<Seq<char>>,
    pub attributes: Seq<(Seq<char>, Seq<char>)>,
}

/// What a list of attributes says.
pub open spec fn attributes_view(attributes: Seq<(String, String)>) -> Seq<
    (Seq<char>, Seq<char>),
> {
    attributes.map_values(|pair: (String, String)| (pair.0@, pair.1@))
}

impl View for PageElement {
    type V = ElementView;

    open spec fn view(&self) -> ElementView {
        ElementView {
            tag: self.tag@,
            texts: self.texts.deep_view(),
            attributes: attributes_view(self.attributes@),
        }
    }
}

/// What a list of elements says.
pub open spec fn elements_view(elements: Seq<PageElement>) -> Seq<ElementView> {
    elements.map_values(|element: PageElement| element@)
}

/// A selected element: its tag, the texts in it, and the values of the attributes asked for.
struct Selected {
    tag: String,
    texts: Vec<String>,
    values: Vec<Option<String>>,
}

/// A selected element: its tag, the texts in it, and the values of the attributes asked for.
pub struct SelectedView {
    pub tag: Seq<char>,
    pub texts: Seq<Seq<char>>,
    pub values: Seq<Option<Seq<char>>>,
}

spec fn selected_view(selected: Selected) -> SelectedView {
    SelectedView {
        tag: selected.tag@,
        texts: selected.texts.deep_view(),
        values: selected.values.deep_view(),
    }
}

/// What a list of names says.
pub open spec fn names_view(names: Seq<&str>) -> Seq<Seq<char>> {
    names.map_values(|name: &str| name@)
}

/// The elements of a page that a CSS selector selects, in the order in which the parser made them,
/// each with the values of the named attributes; none at all where the selector cannot be read.
pub uninterp spec fn selection(
    html: Seq<char>,
    selector: Seq<char>,
    names: Seq<Seq<char>>,
) -> Option<Seq<SelectedView>>;

/// Selects elements of a page.
///
/// Trusted: `Html::parse_document`, `Selector::parse` and `Html::select` are functions of the page
/// and the selector alone, and so are an element's name, the texts that `ElementRef::text` gives
/// and the values that `Element::attr` gives for the named attributes, one for each name. Which
/// elements a page has and which of them are selected is left to the name. The parser gives up on
/// a text of more than two gibibytes.
#[verifier::external_body]
fn select(html: &str, selector: &str, names: &[&str]) -> (elements: Option<Vec<Selected>>)
    requires
        is_readable(html),
    ensures
        match elements {
            Some(list) => {
                &&& selection(html@, selector@, names_view(names@)) == Some(
                    list@.map_values(|selected: Selected| selected_view(selected)),
                )
                &&& forall|i: int|
                    0 <= i < list@.len() ==> (#[trigger] list@[i]).values@.len() == names@.len()
            },
            None => selection(html@, selector@, names_view(names@)) is None,
        },
{
    let document = scraper::Html::parse_document(html);
    let selector = scraper::Selector::parse(selector).ok()?;
    let elements = document.select(&selector).map(|element| Selected {
        tag: element.value().name().to_string(),
        texts: element.text().map(|text| text.to_string()).collect(),
        values: names
            .iter()
            .map(|name| element.value().attr(name).map(|value| value.to_string()))
            .collect(),
    });
    Some(elements.collect())
}

/// The named attributes that have values, in the order of the names.
pub open spec fn paired(names: Seq<Seq<char>>, values: Seq<Option<Seq<char>>>) -> Seq<
    (Seq<char>, Seq<char>),
>
    decreases values.len(),
{
    if values.len() == 0 {
        seq![]
    } else {
        let before = paired(names, values.drop_last());
        match values.last() {
            Some(value) => before.push((names[values.len() - 1], value)),
            None => before,
        }
    }
}

/// The element that was selected, with those of the named attributes that it has.
pub open spec fn element_of(names: Seq<Seq<char>>, selected: SelectedView) -> ElementView {
    ElementView {
        tag: selected.tag,
        texts: selected.texts,
        attributes: paired(names, selected.values),
    }
}

fn pair_values(names: &[&str], values: Vec<Option<String>>) -> (attributes: Vec<(String, String)>)
    requires
        values@.len() == names@.len(),
    ensures
        attributes_view(attributes@) == paired(names_view(names@), values.deep_view()),
{
    let ghost all = values.deep_view();
    let mut attributes: Vec<(String, String)> = Vec::new();
    assert(attributes_view(attributes@) =~= Seq::<(Seq<char>, Seq<char>)>::empty());
    let mut i: usize = 0;
    while i < values.len()
        invariant
            values@.len() == names@.len(),
            all == values.deep_view(),
            i <= values@.len(),
            attributes_view(attributes@) == paired(names_view(names@), all.take(i as int)),
        decreases values@.len() - i,
    {
        assert(all.take(i + 1).drop_last() =~= all.take(i as int));
        if let Some(value) = &values[i] {
            let ghost before = attributes_view(attributes@);
            attributes.push((names[i].to_string(), value.clone()));
            assert(names_view(names@)[i as int] == names@[i as int]@);
            assert(attributes_view(attributes@) =~= before.push((names@[i as int]@, value@)));
        }
        i += 1;
    }
    assert(all.take(i as int) =~= all);
    attributes
}

/// The attributes that are read: those that hold addresses, the handler of clicks, and those that
/// label an element.
pub open spec fn attribute_names() -> Seq<&'static str> {
    link_attributes() + seq!["onclick"] + label_attributes()
}

/// The attributes that hold addresses.
pub open spec fn link_attributes() -> Seq<&'static str> {
    seq![
        "href",
        "src",
        "action",
        "data-url",
        "data-href",
        "data-link",
        "data-src",
        "data-file",
        "data-download",
        "data-target-url",
        "data-redirect",
        "content",
    ]
}

/// The attributes that label an element, the best first.
pub open spec fn label_attributes() -> Seq<&'static str> {
    seq!["title", "aria-label", "alt", "value", "data-title", "data-name", "data-label"]
}

/// Selects the elements that may hold addresses.
pub const LINK_SELECTOR: &'static str =
    "[href], [src], form[action], [data-url], [data-href], [data-link], [data-src], [data-file], [data-download], [data-target-url], [data-redirect], [onclick], meta[content]";

/// The elements of a page that may hold addresses.
pub open spec fn link_elements(html: Seq<char>) -> Option<Seq<ElementView>> {
    let names = names_view(attribute_names());
    match selection(html, LINK_SELECTOR@, names) {
        Some(list) => Some(list.map_values(|selected: SelectedView| element_of(names, selected))),
        None => None,
    }
}

/// The elements of a page that may hold addresses, in the order in which the parser made them; none
/// at all where the selector cannot be read.
pub fn page_elements(html: &str) -> (elements: Option<Vec<PageElement>>)
    requires
        is_readable(html),
    ensures
        match elements {
            Some(list) => link_elements(html@) == Some(elements_view(list@)),
            None => link_elements(html@) is None,
        },
{
    let names = [
        "href",
        "src",
        "action",
        "data-url",
        "data-href",
        "data-link",
        "data-src",
        "data-file",
        "data-download",
        "data-target-url",
        "data-redirect",
        "content",
        "onclick",
        "title",
        "aria-label",
        "alt",
        "value",
        "data-title",
        "data-name",
        "data-label",
    ];
    assert(names@ =~= attribute_names());
    let ghost labels = names_view(attribute_names());
    let list = match select(html, LINK_SELECTOR, &names) {
        Some(list) => list,
        None => return None,
    };
    let ghost found = list@.map_values(|selected: Selected| selected_view(selected));
    let mut rest = reversed(list);
    let mut elements: Vec<PageElement> = Vec::new();
    while rest.len() > 0
        invariant
            names@ == attribute_names(),
            labels == names_view(attribute_names()),
            elements@.len() + rest@.len() == list@.len(),
            rest@ == list@.skip(elements@.len() as int).reverse(),
            forall|i: int|
                0 <= i < list@.len() ==> (#[trigger] list@[i]).values@.len() == names@.len(),
            forall|i: int|
                0 <= i < elements@.len() ==> (#[trigger] elements@[i])@ == element_of(
                    labels,
                    selected_view(list@[i]),
                ),
        decreases rest@.len(),
    {
        let ghost done = elements@.len() as int;
        assert(rest@.last() == list@[done]);
        if let Some(selected) = rest.pop() {
            let Selected { tag, texts, values } = selected;
            let attributes = pair_values(&names, values);
            elements.push(PageElement { tag, texts, attributes });
            assert(rest@ =~= list@.skip(done + 1).reverse());
        }
    }
    assert(elements_view(elements@) =~= found.map_values(
        |selected: SelectedView| element_of(labels, selected),
    ));
    Some(elements)
}

/// The title of a page, of which the texts are given.
pub open spec fn title_of(texts: Seq<Seq<char>>) -> Option<Seq<char>> {
    let title = cleaned(joined(texts, " "@));
    if title.len() == 0 {
        None
    } else {
        Some(title)
    }
}

/// The title of a page, of which the texts are given.
pub fn clean_title(texts: &Vec<String>) -> (title: Option<String>)
    ensures
        title.deep_view() == title_of(texts.deep_view()),
{
    let title = clean_label(join(texts, " ").as_str());
    if title.as_str().is_empty() {
        None
    } else {
        Some(title)
    }
}

/// The title of a page: the texts of its first title element.
pub open spec fn page_title(html: Seq<char>) -> Option<Seq<char>> {
    match selection(html, "title"@, seq![]) {
        Some(list) => if list.len() > 0 {
            title_of(list[0].texts)
        } else {
            None
        },
        None => None,
    }
}

/// The title of a page: the texts of its first title element.
pub fn extract_page_title(html: &str) -> (title: Option<String>)
    requires
        is_readable(html),
    ensures
        title.deep_view() == page_title(html@),
{
    assert(names_view(Seq::<&str>::empty()) =~= Seq::<Seq<char>>::empty());
    let names: [&str; 0] = [];
    assert(names@ =~= Seq::<&str>::empty());
    match select(html, "title", &names) {
        Some(list) => {
            let ghost found = list@.map_values(|selected: Selected| selected_view(selected));
            assert(found.len() == list@.len());
            if list.len() > 0 {
                assert(found[0] == selected_view(list@[0]));
                clean_title(&list[0].texts)
            } else {
                None
            }
        },
        None => None,
    }
}

/// The value of the first attribute of that name, from `i` on.
pub open spec fn attribute_from(
    attributes: Seq<(Seq<char>, Seq<char>)>,
    name: Seq<char>,
    i: int,
) -> Option<Seq<char>>
    decreases attributes.len() - i,
{
    if i >= attributes.len() {
        None
    } else if attributes[i].0 == name {
        Some(attributes[i].1)
    } else {
        attribute_from(attributes, name, i + 1)
    }
}

/// The value of an element's attribute of that name.
pub open spec fn attribute(element: ElementView, name: Seq<char>) -> Option<Seq<char>> {
    attribute_from(element.attributes, name, 0)
}

impl PageElement {
    /// The value of the attribute of that name.
    pub fn attr(&self, name: &str) -> (value: Option<&str>)
        ensures
            value.deep_view() == attribute(self@, name@),
    {
        let ghost all = attributes_view(self.attributes@);
        let mut i: usize = 0;
        while i < self.attributes.len()
            invariant
                all == attributes_view(self.attributes@),
                i <= self.attributes@.len(),
                attribute_from(all, name@, 0) == attribute_from(all, name@, i as int),
            decreases self.attributes@.len() - i,
        {
            assert(all[i as int] == (self.attributes@[i as int].0@, self.attributes@[i as int].1@));
            if same_text(self.attributes[i].0.as_str(), name) {
                return Some(self.attributes[i].1.as_str());
            }
            i += 1;
        }
        None
    }
}

/// The first of the named attributes, from `i` on, that labels an element.
pub open spec fn label_from(element: ElementView, names: Seq<&str>, i: int) -> Option<Seq<char>>
    decreases names.len() - i,
{
    if i >= names.len() {
        None
    } else {
        match attribute(element, names[i]@) {
            Some(value) => if cleaned(value).len() > 0 {
                Some(cleaned(value))
            } else {
                label_from(element, names, i + 1)
            },
            None => label_from(element, names, i + 1),
        }
    }
}

/// What an element is called: its text, else the first attribute that labels it, else `fallback`.
pub open spec fn label_of(element: ElementView, fallback: Seq<char>) -> Seq<char> {
    let text = cleaned(joined(element.texts, " "@));
    if text.len() > 0 {
        text
    } else {
        match label_from(element, label_attributes(), 0) {
            Some(label) => label,
            None => fallback,
        }
    }
}

/// What an element is called: its text, else the first attribute that labels it, else `fallback`.
pub fn element_label(element: &PageElement, fallback: &str) -> (label: String)
    ensures
        label@ == label_of(element@, fallback@),
{
    let text = clean_label(join(&element.texts, " ").as_str());
    if !text.as_str().is_empty() {
        return text;
    }
    let names = ["title", "aria-label", "alt", "value", "data-title", "data-name", "data-label"];
    assert(names@ =~= label_attributes());
    let mut i: usize = 0;
    while i < names.len()
        invariant
            i <= names@.len(),
            names@ == label_attributes(),
            cleaned(joined(element@.texts, " "@)).len() == 0,
            label_from(element@, label_attributes(), 0) == label_from(
                element@,
                label_attributes(),
                i as int,
            ),
        decreases names@.len() - i,
    {
        if let Some(value) = element.attr(names[i]) {
            let label = clean_label(value);
            if !label.as_str().is_empty() {
                return label;
            }
        }
        i += 1;
    }
    fallback.to_string()
}

/// The reference that an attribute holds, if any: a page's `content` holds one only where it is a
/// redirection.
pub open spec fn link_reference(element: ElementView, name: Seq<char>) -> Option<Seq<char>> {
    match attribute(element, name) {
        Some(value) => if name == "content"@ {
            refresh_target(value)
        } else {
            Some(value)
        },
        None => None,
    }
}

/// The references that the first `n` of the named attributes hold.
pub open spec fn link_references(element: ElementView, names: Seq<&str>, n: nat) -> Seq<Seq<char>>
    decreases n,
{
    if n == 0 {
        seq![]
    } else {
        let before = link_references(element, names, (n - 1) as nat);
        match link_reference(element, names[n - 1]@) {
            Some(reference) => before.push(reference),
            None => before,
        }
    }
}

/// The references of an element: those that its attributes hold, then those that it opens.
pub open spec fn references_of(element: ElementView) -> Seq<Seq<char>> {
    let held = link_references(element, link_attributes(), link_attributes().len());
    match attribute(element, "onclick"@) {
        Some(handler) => held + targets_in(handler),
        None => held,
    }
}

/// The references of an element: those that its attributes hold, then those that it opens.
pub fn element_references(element: &PageElement) -> (references: Vec<String>)
    ensures
        references.deep_view() == references_of(element@),
{
    let names = [
        "href",
        "src",
        "action",
        "data-url",
        "data-href",
        "data-link",
        "data-src",
        "data-file",
        "data-download",
        "data-target-url",
        "data-redirect",
        "content",
    ];
    assert(names@ =~= link_attributes());
    let mut references: Vec<String> = Vec::new();
    assert(references.deep_view() =~= Seq::<Seq<char>>::empty());
    let mut i: usize = 0;
    while i < names.len()
        invariant
            i <= names@.len(),
            names@ == link_attributes(),
            references.deep_view() == link_references(element@, link_attributes(), i as nat),
        decreases names@.len() - i,
    {
        let ghost before = references.deep_view();
        if let Some(value) = element.attr(names[i]) {
            if same_text(names[i], "content") {
                if let Some(target) = meta_refresh_target(value) {
                    let ghost text = target@;
                    references.push(target);
                    assert(references.deep_view() =~= before.push(text));
                }
            } else {
                references.push(value.to_string());
                assert(references.deep_view() =~= before.push(value@));
            }
        }
        i += 1;
    }
    if let Some(handler) = element.attr("onclick") {
        let mut targets = harvest_navigation_targets(handler);
        let ghost before = references.deep_view();
        let ghost more = targets.deep_view();
        references.append(&mut targets);
        assert(references.deep_view() =~= before + more);
    }
    references
}

/// A reference in an attribute is taken as it stands.
pub open spec fn is_plain_link_name(name: Seq<char>) -> bool {
    ||| name == "href"@
    ||| name == "src"@
    ||| name == "action"@
    ||| name == "data-url"@
    ||| name == "data-href"@
    ||| name == "data-link"@
    ||| name == "data-src"@
    ||| name == "data-file"@
    ||| name == "data-download"@
    ||| name == "data-target-url"@
    ||| name == "data-redirect"@
}

proof fn lemma_link_references(element: ElementView, names: Seq<&str>, n: nat)
    requires
        n <= names.len(),
    ensures
        forall|k: int, reference: Seq<char>|
            0 <= k < n && #[trigger] link_reference(element, names[k]@) == Some(reference)
                ==> #[trigger] link_references(element, names, n).contains(reference),
        forall|reference: Seq<char>| #[trigger]
            link_references(element, names, n).contains(reference) ==> exists|k: int|
                0 <= k < n && #[trigger] link_reference(element, names[k]@) == Some(reference),
    decreases n,
{
    if n > 0 {
        let m = (n - 1) as nat;
        lemma_link_references(element, names, m);
        let before = link_references(element, names, m);
        let all = link_references(element, names, n);
        assert forall|k: int, reference: Seq<char>|
            0 <= k < n && #[trigger] link_reference(element, names[k]@) == Some(
                reference,
            ) implies #[trigger] all.contains(reference) by {
            if k < m {
                assert(before.contains(reference));
                let j = choose|j: int| 0 <= j < before.len() && before[j] == reference;
                assert(all[j] == reference);
            } else {
                assert(all[before.len() as int] == reference);
            }
        }
        assert forall|reference: Seq<char>| #[trigger] all.contains(reference) implies exists|k: int|
            0 <= k < n && #[trigger] link_reference(element, names[k]@) == Some(reference) by {
            let j = choose|j: int| 0 <= j < all.len() && all[j] == reference;
            if j < before.len() {
                assert(before[j] == reference);
                assert(before.contains(reference));
            } else {
                assert(link_reference(element, names[m as int]@) == Some(reference));
            }
        }
    }
}

/// Every address that an element holds is among its references, whatever other attributes it has:
/// that in each of the link attributes, the target of a redirection, and each target that its
/// click handler opens.
pub proof fn law_references_are_complete(element: ElementView)
    ensures
        forall|name: Seq<char>| #[trigger]
            is_plain_link_name(name) ==> (attribute(element, name) matches Some(value)
                ==> references_of(element).contains(value)),
        attribute(element, "content"@) matches Some(value) ==> refresh_target(value) matches Some(
            target,
        ) ==> references_of(element).contains(target),
        attribute(element, "onclick"@) matches Some(handler) ==> forall|i: int|
            0 <= i < targets_in(handler).len() ==> references_of(element).contains(
                #[trigger] targets_in(handler)[i],
            ),
{
    let names = link_attributes();
    let held = link_references(element, names, names.len());
    let all = references_of(element);
    lemma_link_references(element, names, names.len());
    lemma_link_names();
    assert forall|reference: Seq<char>| #[trigger] held.contains(reference) implies all.contains(
        reference,
    ) by {
        let j = choose|j: int| 0 <= j < held.len() && held[j] == reference;
        assert(all[j] == reference);
    }
    assert forall|name: Seq<char>| #[trigger] is_plain_link_name(name) implies (attribute(
        element,
        name,
    ) matches Some(value) ==> all.contains(value)) by {
        if let Some(value) = attribute(element, name) {
            let k = lemma_link_index(name);
            assert(link_reference(element, names[k]@) == Some(value));
            assert(held.contains(value));
        }
    }
    if let Some(value) = attribute(element, "content"@) {
        if let Some(target) = refresh_target(value) {
            assert(link_reference(element, names[11]@) == Some(target));
            assert(held.contains(target));
        }
    }
    if let Some(handler) = attribute(element, "onclick"@) {
        assert forall|i: int| 0 <= i < targets_in(handler).len() implies all.contains(
            #[trigger] targets_in(handler)[i],
        ) by {
            assert(all[held.len() + i] == targets_in(handler)[i]);
        }
    }
}

proof fn lemma_link_names()
    ensures
        link_attributes().len() == 12,
        link_attributes()[11] == "content",
        forall|name: Seq<char>| #[trigger] is_plain_link_name(name) ==> name != "content"@,
{
    reveal_strlit("href");
    reveal_strlit("src");
    reveal_strlit("action");
    reveal_strlit("data-url");
    reveal_strlit("data-href");
    reveal_strlit("data-link");
    reveal_strlit("data-src");
    reveal_strlit("data-file");
    reveal_strlit("data-download");
    reveal_strlit("data-target-url");
    reveal_strlit("data-redirect");
    reveal_strlit("content");
    assert("content"@.len() == 7);
    assert("href"@.len() == 4);
    assert("src"@.len() == 3);
    assert("action"@.len() == 6);
    assert("data-url"@.len() == 8);
    assert("data-href"@.len() == 9);
    assert("data-link"@.len() == 9);
    assert("data-src"@.len() == 8);
    assert("data-file"@.len() == 9);
    assert("data-download"@.len() == 13);
    assert("data-target-url"@.len() == 15);
    assert("data-redirect"@.len() == 13);
}

proof fn lemma_link_index(name: Seq<char>) -> (k: int)
    requires
        is_plain_link_name(name),
    ensures
        0 <= k < 11,
        link_attributes()[k]@ == name,
{
    if name == "href"@ {
        0
    } else if name == "src"@ {
        1
    } else if name == "action"@ {
        2
    } else if name == "data-url"@ {
        3
    } else if name == "data-href"@ {
        4
    } else if name == "data-link"@ {
        5
    } else if name == "data-src"@ {
        6
    } else if name == "data-file"@ {
        7
    } else if name == "data-download"@ {
        8
    } else if name == "data-target-url"@ {
        9
    } else {
        10
    }
}

/// An element has no other references than those.
pub proof fn law_references_are_held(element: ElementView, reference: Seq<char>)
    requires
        references_of(element).contains(reference),
    ensures
        ({
            ||| exists|name: Seq<char>| #[trigger]
                is_plain_link_name(name) && attribute(element, name) == Some(reference)
            ||| attribute(element, "content"@) matches Some(value) && refresh_target(value) == Some(
                reference,
            )
            ||| attribute(element, "onclick"@) matches Some(handler) && targets_in(
                handler,
            ).contains(reference)
        }),
{
    let names = link_attributes();
    let held = link_references(element, names, names.len());
    let all = references_of(element);
    lemma_link_references(element, names, names.len());
    lemma_link_names();
    let j = choose|j: int| 0 <= j < all.len() && all[j] == reference;
    if j < held.len() {
        assert(held[j] == reference);
        assert(held.contains(reference));
        let k = choose|k: int|
            0 <= k < names.len() && #[trigger] link_reference(element, names[k]@) == Some(reference);
        if k < 11 {
            assert(is_plain_link_name(names[k]@));
        }
    } else if let Some(handler) = attribute(element, "onclick"@) {
        assert(targets_in(handler)[j - held.len()] == reference);
    }
}

/// An attribute has the value that first stands under its name, and none where none does.
pub proof fn law_attributes(element: ElementView, name: Seq<char>)
    ensures
        match attribute(element, name) {
            Some(value) => exists|i: int|
                0 <= i < element.attributes.len() && #[trigger] element.attributes[i] == (
                    name,
                    value,
                ) && forall|j: int|
                    0 <= j < i ==> (#[trigger] element.attributes[j]).0 != name,
            None => forall|j: int|
                0 <= j < element.attributes.len() ==> (#[trigger] element.attributes[j]).0 != name,
        },
{
    lemma_attribute_from(element.attributes, name, 0);
}

proof fn lemma_attribute_from(attributes: Seq<(Seq<char>, Seq<char>)>, name: Seq<char>, from: int)
    requires
        0 <= from,
    ensures
        match attribute_from(attributes, name, from) {
            Some(value) => exists|i: int|
                from <= i < attributes.len() && #[trigger] attributes[i] == (name, value)
                    && forall|j: int| from <= j < i ==> (#[trigger] attributes[j]).0 != name,
            None => forall|j: int|
                from <= j < attributes.len() ==> (#[trigger] attributes[j]).0 != name,
        },
    decreases attributes.len() - from,
{
    if from < attributes.len() {
        if attributes[from].0 == name {
            assert(attributes[from] == (name, attributes[from].1));
        } else {
            lemma_attribute_from(attributes, name, from + 1);
            if let Some(value) = attribute_from(attributes, name, from + 1) {
                let i = choose|i: int|
                    from + 1 <= i < attributes.len() && #[trigger] attributes[i] == (name, value)
                        && forall|j: int|
                        from + 1 <= j < i ==> (#[trigger] attributes[j]).0 != name;
                assert(attributes[i] == (name, value));
            }
        }
    }
}

/// The names of the attributes that label an element, the best first.
pub open spec fn label_names() -> Seq<Seq<char>> {
    seq![
        "title"@,
        "aria-label"@,
        "alt"@,
        "value"@,
        "data-title"@,
        "data-name"@,
        "data-label"@,
    ]
}

/// An element is labelled by the words in it; else by the words of the first of its labelling
/// attributes that has any; and else by the given text.
pub proof fn law_labels(element: ElementView, fallback: Seq<char>)
    ensures
        ({
            let words_in = words(joined(element.texts, " "@));
            &&& words_in.len() > 0 ==> words(label_of(element, fallback)) == words_in && label_of(
                element,
                fallback,
            ) == cleaned(joined(element.texts, " "@))
            &&& forall|k: int|
                words_in.len() == 0 && is_labelled_by(element, k) ==> (attribute(
                    element,
                    #[trigger] label_names()[k],
                ) matches Some(value) && label_of(element, fallback) == cleaned(value))
            &&& words_in.len() == 0 && (forall|k: int| !is_labelled_by(element, k)) ==> label_of(
                element,
                fallback,
            ) == fallback
        }),
{
    let text = joined(element.texts, " "@);
    law_cleaning(text);
    lemma_cleaned_length(text);
    let names = label_attributes();
    assert(names_view(names) =~= label_names());
    lemma_label_from(element, 0);
    if let Some(label) = label_from(element, names, 0) {
        let k = choose|k: int|
            0 <= k < 7 && has_words(element, #[trigger] label_names()[k]) && label == cleaned(
                attribute(element, label_names()[k])->Some_0,
            ) && forall|j: int| 0 <= j < k ==> !has_words(element, #[trigger] label_names()[j]);
        assert(is_labelled_by(element, k));
    }
    assert forall|k: int| words(text).len() == 0 && is_labelled_by(element, k) implies (attribute(
        element,
        #[trigger] label_names()[k],
    ) matches Some(value) && label_of(element, fallback) == cleaned(value)) by {}
}

/// The attribute at that place among the labelling ones is the first that has any words.
pub open spec fn is_labelled_by(element: ElementView, k: int) -> bool {
    &&& 0 <= k < 7
    &&& has_words(element, label_names()[k])
    &&& forall|j: int| 0 <= j < k ==> !has_words(element, #[trigger] label_names()[j])
}

/// The element has the attribute, and its value has words.
pub open spec fn has_words(element: ElementView, name: Seq<char>) -> bool {
    attribute(element, name) matches Some(value) && words(value).len() > 0
}

proof fn lemma_cleaned_length(text: Seq<char>)
    ensures
        cleaned(text).len() > 0 <==> words(text).len() > 0,
{
    law_cleaning(text);
    if words(text).len() > 0 && cleaned(text).len() == 0 {
        assert(words(cleaned(text)).len() == 0);
    }
    if words(text).len() == 0 {
        assert(cleaned(text).len() == 0);
    }
}

proof fn lemma_label_from(element: ElementView, from: int)
    requires
        0 <= from <= 7,
    ensures
        match label_from(element, label_attributes(), from) {
            Some(label) => exists|k: int|
                from <= k < 7 && has_words(element, #[trigger] label_names()[k]) && label
                    == cleaned(attribute(element, label_names()[k])->Some_0) && forall|j: int|
                    from <= j < k ==> !has_words(element, #[trigger] label_names()[j]),
            None => forall|k: int| from <= k < 7 ==> !has_words(element, #[trigger] label_names()[k]),
        },
    decreases 7 - from,
{
    let names = label_attributes();
    assert(names.len() == 7);
    assert(names_view(names) =~= label_names());
    if from < 7 {
        assert(names_view(names)[from] == names[from]@);
        assert(label_names()[from] == names[from]@);
        if let Some(value) = attribute(element, names[from]@) {
            lemma_cleaned_length(value);
        }
        lemma_label_from(element, from + 1);
        if !has_words(element, label_names()[from]) {
            if let Some(label) = label_from(element, names, from + 1) {
                let k = choose|k: int|
                    from + 1 <= k < 7 && has_words(element, #[trigger] label_names()[k]) && label
                        == cleaned(attribute(element, label_names()[k])->Some_0) && forall|j: int|
                        from + 1 <= j < k ==> !has_words(element, #[trigger] label_names()[j]);
                assert(has_words(element, label_names()[k]));
            }
        }
    }
}

/// The title of a page has the words of its first title element, and there is none without words.
pub proof fn law_page_titles(html: Seq<char>, list: Seq<SelectedView>)
    requires
        selection(html, "title"@, seq![]) == Some(list),
    ensures
        list.len() == 0 ==> page_title(html) is None,
        list.len() > 0 ==> match page_title(html) {
            Some(title) => title == cleaned(joined(list[0].texts, " "@)) && words(title).len() > 0,
            None => words(joined(list[0].texts, " "@)).len() == 0,
        },
{
    if list.len() > 0 {
        law_cleaning(joined(list[0].texts, " "@));
        lemma_cleaned_length(joined(list[0].texts, " "@));
    }
}

/// The names of the attributes that are read.
pub open spec fn read_names() -> Seq<Seq<char>> {
    seq![
        "href"@,
        "src"@,
        "action"@,
        "data-url"@,
        "data-href"@,
        "data-link"@,
        "data-src"@,
        "data-file"@,
        "data-download"@,
        "data-target-url"@,
        "data-redirect"@,
        "content"@,
        "onclick"@,
        "title"@,
        "aria-label"@,
        "alt"@,
        "value"@,
        "data-title"@,
        "data-name"@,
        "data-label"@,
    ]
}

/// All elements with a link attribute, a click handler or a redirection are read, each with its
/// tag, its texts and the values of its attributes.
pub proof fn law_elements_are_read(html: Seq<char>, list: Seq<SelectedView>)
    requires
        selection(
            html,
            "[href], [src], form[action], [data-url], [data-href], [data-link], [data-src], [data-file], [data-download], [data-target-url], [data-redirect], [onclick], meta[content]"@,
            read_names(),
        ) == Some(list),
        forall|i: int| 0 <= i < list.len() ==> (#[trigger] list[i]).values.len() == 20,
    ensures
        link_elements(html) matches Some(elements) && elements.len() == list.len() && forall|i: int|
            0 <= i < list.len() ==> {
                &&& (#[trigger] elements[i]).tag == list[i].tag
                &&& elements[i].texts == list[i].texts
                &&& forall|k: int|
                    0 <= k < 20 ==> attribute(elements[i], #[trigger] read_names()[k])
                        == list[i].values[k]
            },
{
    let names = names_view(attribute_names());
    lemma_read_names();
    assert(names =~= read_names());
    if let Some(elements) = link_elements(html) {
        assert forall|i: int| 0 <= i < list.len() implies {
            &&& (#[trigger] elements[i]).tag == list[i].tag
            &&& elements[i].texts == list[i].texts
            &&& forall|k: int|
                0 <= k < 20 ==> attribute(elements[i], #[trigger] read_names()[k])
                    == list[i].values[k]
        } by {
            assert(elements[i] == element_of(names, list[i]));
            assert forall|k: int| 0 <= k < 20 implies attribute(
                elements[i],
                #[trigger] read_names()[k],
            ) == list[i].values[k] by {
                lemma_paired(read_names(), list[i].values, k);
            }
        }
    }
}

proof fn lemma_attribute_push(
    attributes: Seq<(Seq<char>, Seq<char>)>,
    more: (Seq<char>, Seq<char>),
    name: Seq<char>,
    from: int,
)
    requires
        0 <= from <= attributes.len(),
    ensures
        attribute_from(attributes.push(more), name, from) == match attribute_from(
            attributes,
            name,
            from,
        ) {
            Some(value) => Some(value),
            None => if more.0 == name {
                Some(more.1)
            } else {
                None
            },
        },
    decreases attributes.len() - from,
{
    if from < attributes.len() {
        assert(attributes.push(more)[from] == attributes[from]);
        lemma_attribute_push(attributes, more, name, from + 1);
    } else {
        assert(attribute_from(attributes.push(more), name, from + 1) is None);
    }
}

proof fn lemma_paired(names: Seq<Seq<char>>, values: Seq<Option<Seq<char>>>, k: int)
    requires
        names.no_duplicates(),
        values.len() <= names.len(),
        0 <= k < names.len(),
    ensures
        attribute_from(paired(names, values), names[k], 0) == if k < values.len() {
            values[k]
        } else {
            None
        },
    decreases values.len(),
{
    if values.len() > 0 {
        let before = values.drop_last();
        lemma_paired(names, before, k);
        let last = values.len() - 1;
        if let Some(value) = values.last() {
            lemma_attribute_push(paired(names, before), (names[last], value), names[k], 0);
        }
        if k < last {
            assert(before[k] == values[k]);
        }
    }
}

proof fn lemma_read_names()
    ensures
        read_names().no_duplicates(),
        read_names().len() == 20,
        names_view(attribute_names()) == read_names(),
{
    reveal_strlit("href");
    reveal_strlit("src");
    reveal_strlit("action");
    reveal_strlit("data-url");
    reveal_strlit("data-href");
    reveal_strlit("data-link");
    reveal_strlit("data-src");
    reveal_strlit("data-file");
    reveal_strlit("data-download");
    reveal_strlit("data-target-url");
    reveal_strlit("data-redirect");
    reveal_strlit("content");
    reveal_strlit("onclick");
    reveal_strlit("title");
    reveal_strlit("aria-label");
    reveal_strlit("alt");
    reveal_strlit("value");
    reveal_strlit("data-title");
    reveal_strlit("data-name");
    reveal_strlit("data-label");
    assert("href"@.len() == 4);
    assert("src"@.len() == 3);
    assert("action"@.len() == 6);
    assert("data-url"@.len() == 8);
    assert("data-href"@.len() == 9);
    assert("data-link"@.len() == 9);
    assert("data-src"@.len() == 8);
    assert("data-file"@.len() == 9);
    assert("data-download"@.len() == 13);
    assert("data-target-url"@.len() == 15);
    assert("data-redirect"@.len() == 13);
    assert("content"@.len() == 7);
    assert("onclick"@.len() == 7);
    assert("title"@.len() == 5);
    assert("aria-label"@.len() == 10);
    assert("alt"@.len() == 3);
    assert("value"@.len() == 5);
    assert("data-title"@.len() == 10);
    assert("data-name"@.len() == 9);
    assert("data-label"@.len() == 10);
    assert("src"@[0] != "alt"@[0]);
    assert("data-url"@[5] != "data-src"@[5]);
    assert("data-href"@[5] != "data-link"@[5]);
    assert("data-href"@[5] != "data-file"@[5]);
    assert("data-href"@[5] != "data-name"@[5]);
    assert("data-link"@[5] != "data-file"@[5]);
    assert("data-link"@[5] != "data-name"@[5]);
    assert("data-file"@[5] != "data-name"@[5]);
    assert("data-download"@[5] != "data-redirect"@[5]);
    assert("content"@[0] != "onclick"@[0]);
    assert("title"@[0] != "value"@[0]);
    assert("aria-label"@[0] != "data-title"@[0]);
    assert("aria-label"@[0] != "data-label"@[0]);
    assert("data-title"@[5] != "data-label"@[5]);
    assert(names_view(attribute_names()) =~= read_names());
}

proof fn lemma_room_bounds(bytes: Seq<u8>)
    ensures
        bytes.len() <= page_room(bytes) <= 3 * bytes.len(),
    decreases bytes.len(),
{
    if bytes.len() > 0 {
        lemma_room_bounds(bytes.drop_last());
    }
}

/// Every page of up to 715827882 bytes can be read, and none of more than two gibibytes.
pub proof fn law_readable_pages(html: &str)
    ensures
        html.spec_bytes().len() <= 715827882 ==> is_readable(html),
        html.spec_bytes().len() > 0x8000_0000 ==> !is_readable(html),
{
    lemma_room_bounds(html.spec_bytes());
}

} // verus!
