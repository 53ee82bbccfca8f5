//! Text as sequences of characters: searching, trimming, splitting and rewriting.

use vstd::prelude::*;

verus! {

/// Appends one character at the end of the string.
///
/// Trusted: `String::push` appends the given `char` and changes nothing before it.
pub assume_specification[ String::push ](text: &mut String, c: char)
    ensures
        final(text)@ == old(text)@.push(c),
;

/// The characters of Unicode's `White_Space` property.
pub open spec fn is_white(c: char) -> bool {
    let u = c as u32;
    ||| 0x9 <= u <= 0xd
    ||| u == 0x20
    ||| u == 0x85
    ||| u == 0xa0
    ||| u == 0x1680
    ||| 0x2000 <= u <= 0x200a
    ||| u == 0x2028
    ||| u == 0x2029
    ||| u == 0x202f
    ||| u == 0x205f
    ||| u == 0x3000
}

/// Whether `c` is white space.
pub fn is_white_space(c: char) -> (white: bool)
    ensures
        white == is_white(c),
{
    let u: u32 = c as u32;
    (0x9 <= u && u <= 0xd) || u == 0x20 || u == 0x85 || u == 0xa0 || u == 0x1680 || (0x2000 <= u
        && u <= 0x200a) || u == 0x2028 || u == 0x2029 || u == 0x202f || u == 0x205f || u == 0x3000
}

/// The characters of `text`, in order.
pub fn chars_of(text: &str) -> (chars: Vec<char>)
    ensures
        chars@ == text@,
{
    let mut chars: Vec<char> = Vec::new();
    for c in it: text.chars()
        invariant
            chars@ == it.seq().take(it.index() as int),
            it.seq() == text@,
    {
        chars.push(c);
    }
    chars
}

/// The string made of `chars[from..to]`.
pub fn text_of(chars: &Vec<char>, from: usize, to: usize) -> (text: String)
    requires
        from <= to <= chars@.len(),
    ensures
        text@ == chars@.subrange(from as int, to as int),
{
    let mut text = String::new();
    let mut i: usize = from;
    while i < to
        invariant
            from <= i <= to <= chars@.len(),
            text@ == chars@.subrange(from as int, i as int),
        decreases to - i,
    {
        text.push(chars[i]);
        i += 1;
    }
    text
}

/// `pattern` stands in `text` at position `i`.
pub open spec fn occurs_at(text: Seq<char>, pattern: Seq<char>, i: int) -> bool {
    &&& 0 <= i
    &&& i + pattern.len() <= text.len()
    &&& text.subrange(i, i + pattern.len()) == pattern
}

/// `text` begins with `pattern`.
pub open spec fn has_prefix(text: Seq<char>, pattern: Seq<char>) -> bool {
    occurs_at(text, pattern, 0)
}

/// `text` ends with `pattern`.
pub open spec fn has_suffix(text: Seq<char>, pattern: Seq<char>) -> bool {
    occurs_at(text, pattern, text.len() - pattern.len())
}

/// `pattern` stands somewhere in `text`.
pub open spec fn has_text(text: Seq<char>, pattern: Seq<char>) -> bool {
    exists|i: int| occurs_at(text, pattern, i)
}

/// One of `needles` stands somewhere in `text`.
pub open spec fn has_any(text: Seq<char>, needles: Seq<&str>) -> bool {
    exists|k: int| 0 <= k < needles.len() && has_text(text, #[trigger] needles[k]@)
}

/// The first position, from `k` on, at which `pattern` stands in `text`.
pub open spec fn first_from(text: Seq<char>, pattern: Seq<char>, k: int) -> Option<int>
    decreases text.len() + 1 - k,
{
    if k + pattern.len() > text.len() {
        None
    } else if occurs_at(text, pattern, k) {
        Some(k)
    } else {
        first_from(text, pattern, k + 1)
    }
}

/// The first position at which `pattern` stands in `text`.
pub open spec fn first_at(text: Seq<char>, pattern: Seq<char>) -> Option<int> {
    first_from(text, pattern, 0)
}

proof fn lemma_first_from(text: Seq<char>, pattern: Seq<char>, k: int)
    requires
        0 <= k,
    ensures
        match first_from(text, pattern, k) {
            Some(i) => {
                &&& k <= i
                &&& occurs_at(text, pattern, i)
                &&& forall|j: int| k <= j < i ==> !occurs_at(text, pattern, j)
            },
            None => forall|j: int| k <= j ==> !occurs_at(text, pattern, j),
        },
    decreases text.len() + 1 - k,
{
    if k + pattern.len() <= text.len() && !occurs_at(text, pattern, k) {
        lemma_first_from(text, pattern, k + 1);
    }
}

/// A search gives the leftmost occurrence, and fails exactly where there is none.
pub proof fn lemma_first_at(text: Seq<char>, pattern: Seq<char>)
    ensures
        first_at(text, pattern) is Some <==> has_text(text, pattern),
        first_at(text, pattern) matches Some(i) ==> {
            &&& occurs_at(text, pattern, i)
            &&& forall|j: int| 0 <= j < i ==> !occurs_at(text, pattern, j)
        },
{
    lemma_first_from(text, pattern, 0);
    if has_text(text, pattern) {
        let i = choose|i: int| occurs_at(text, pattern, i);
        assert(0 <= i);
    }
}

/// Whether `pattern` stands in `text` at position `i`.
pub fn matches_at(text: &Vec<char>, pattern: &Vec<char>, i: usize) -> (found: bool)
    ensures
        found == occurs_at(text@, pattern@, i as int),
{
    if i > text.len() || pattern.len() > text.len() - i {
        return false;
    }
    let length: usize = text.len();
    let mut j: usize = 0;
    while j < pattern.len()
        invariant
            length == text@.len(),
            i + pattern@.len() <= length,
            j <= pattern@.len(),
            forall|k: int| 0 <= k < j ==> #[trigger] pattern@[k] == text@[i + k],
        decreases pattern@.len() - j,
    {
        if text[i + j] != pattern[j] {
            assert(text@.subrange(i as int, i + pattern@.len())[j as int] != pattern@[j as int]);
            return false;
        }
        j += 1;
    }
    assert(text@.subrange(i as int, i + pattern@.len()) =~= pattern@);
    true
}

/// The first position, in characters, at which `pattern` stands in `text`.
pub fn find(text: &str, pattern: &str) -> (at: Option<usize>)
    ensures
        match at {
            Some(i) => first_at(text@, pattern@) == Some(i as int),
            None => first_at(text@, pattern@) is None,
        },
{
    let t = chars_of(text);
    let p = chars_of(pattern);
    if p.len() > t.len() {
        return None;
    }
    let last: usize = t.len() - p.len();
    let mut i: usize = 0;
    while i < last
        invariant
            t@ == text@,
            p@ == pattern@,
            i <= last,
            last + p@.len() == t@.len(),
            first_at(text@, pattern@) == first_from(text@, pattern@, i as int),
        decreases last - i,
    {
        if matches_at(&t, &p, i) {
            return Some(i);
        }
        i += 1;
    }
    if matches_at(&t, &p, last) {
        Some(last)
    } else {
        assert(first_from(text@, pattern@, last + 1) is None);
        None
    }
}

/// Whether `text` begins with `pattern`.
pub fn starts_with(text: &str, pattern: &str) -> (found: bool)
    ensures
        found == has_prefix(text@, pattern@),
{
    let t = chars_of(text);
    let p = chars_of(pattern);
    matches_at(&t, &p, 0)
}

/// Whether `text` ends with `pattern`.
pub fn ends_with(text: &str, pattern: &str) -> (found: bool)
    ensures
        found == has_suffix(text@, pattern@),
{
    let t = chars_of(text);
    let p = chars_of(pattern);
    if p.len() > t.len() {
        return false;
    }
    matches_at(&t, &p, t.len() - p.len())
}

/// Whether `pattern` stands somewhere in `text`.
pub fn contains(text: &str, pattern: &str) -> (found: bool)
    ensures
        found == has_text(text@, pattern@),
{
    proof {
        lemma_first_at(text@, pattern@);
    }
    find(text, pattern).is_some()
}

/// Whether one of `needles` stands somewhere in `value`.
pub fn contains_any(value: &str, needles: &[&str]) -> (found: bool)
    ensures
        found == has_any(value@, needles@),
{
    let mut k: usize = 0;
    while k < needles.len()
        invariant
            k <= needles@.len(),
            forall|j: int| 0 <= j < k ==> !has_text(value@, #[trigger] needles@[j]@),
        decreases needles@.len() - k,
    {
        if contains(value, needles[k]) {
            assert(has_text(value@, needles@[k as int]@));
            return true;
        }
        k += 1;
    }
    false
}

/// Whether the two texts are the same.
pub fn same_text(left: &str, right: &str) -> (same: bool)
    ensures
        same == (left@ == right@),
{
    left.to_string() == right.to_string()
}

/// What follows `pattern` in `text`, where `text` begins with it.
pub fn strip_prefix(text: &str, pattern: &str) -> (rest: Option<String>)
    ensures
        rest is Some <==> has_prefix(text@, pattern@),
        rest matches Some(r) ==> r@ == text@.skip(pattern@.len() as int),
{
    let t = chars_of(text);
    let p = chars_of(pattern);
    if matches_at(&t, &p, 0) {
        Some(text_of(&t, p.len(), t.len()))
    } else {
        None
    }
}

/// Whether `c` is to be stripped: white space by default, else a character of the set.
pub open spec fn is_stripped(c: char, set: Option<Seq<char>>) -> bool {
    match set {
        None => is_white(c),
        Some(chars) => chars.contains(c),
    }
}

/// `text` from its first character that is not stripped.
pub open spec fn stripped_start(text: Seq<char>, set: Option<Seq<char>>) -> Seq<char>
    decreases text.len(),
{
    if text.len() > 0 && is_stripped(text[0], set) {
        stripped_start(text.skip(1), set)
    } else {
        text
    }
}

/// `text` up to its last character that is not stripped.
pub open spec fn stripped_end(text: Seq<char>, set: Option<Seq<char>>) -> Seq<char>
    decreases text.len(),
{
    if text.len() > 0 && is_stripped(text.last(), set) {
        stripped_end(text.drop_last(), set)
    } else {
        text
    }
}

/// `text` without the white space at its ends.
pub open spec fn trimmed(text: Seq<char>) -> Seq<char> {
    stripped_end(stripped_start(text, None), None)
}

/// `text` without the characters of `set` at its ends.
pub open spec fn trimmed_of(text: Seq<char>, set: Seq<char>) -> Seq<char> {
    stripped_end(stripped_start(text, Some(set)), Some(set))
}

spec fn set_of(set: Option<&[char]>) -> Option<Seq<char>> {
    match set {
        None => None,
        Some(chars) => Some(chars@),
    }
}

fn is_char_stripped(c: char, set: Option<&[char]>) -> (stripped: bool)
    ensures
        stripped == is_stripped(c, set_of(set)),
{
    match set {
        None => is_white_space(c),
        Some(chars) => {
            let mut k: usize = 0;
            while k < chars.len()
                invariant
                    set == Some(chars),
                    k <= chars@.len(),
                    forall|j: int| 0 <= j < k ==> chars@[j] != c,
                decreases chars@.len() - k,
            {
                if chars[k] == c {
                    assert(chars@[k as int] == c);
                    return true;
                }
                k += 1;
            }
            false
        },
    }
}

fn strip(text: &str, set: Option<&[char]>) -> (rest: String)
    ensures
        rest@ == stripped_end(stripped_start(text@, set_of(set)), set_of(set)),
{
    let ghost s = set_of(set);
    let t = chars_of(text);
    let mut from: usize = 0;
    assert(t@.skip(0) =~= t@);
    while from < t.len() && is_char_stripped(t[from], set)
        invariant
            s == set_of(set),
            from <= t@.len(),
            stripped_start(t@, s) == stripped_start(t@.skip(from as int), s),
        decreases t@.len() - from,
    {
        assert(t@.skip(from as int).skip(1) =~= t@.skip(from + 1));
        from += 1;
    }
    let mut to: usize = t.len();
    assert(stripped_start(t@, s) == t@.skip(from as int));
    assert(t@.subrange(from as int, to as int) =~= t@.skip(from as int));
    while from < to && is_char_stripped(t[to - 1], set)
        invariant
            s == set_of(set),
            from <= to <= t@.len(),
            stripped_end(t@.skip(from as int), s) == stripped_end(
                t@.subrange(from as int, to as int),
                s,
            ),
        decreases to,
    {
        assert(t@.subrange(from as int, to as int).drop_last() =~= t@.subrange(
            from as int,
            to - 1,
        ));
        to -= 1;
    }
    text_of(&t, from, to)
}

/// `text` without the white space at its ends.
pub fn trim(text: &str) -> (rest: String)
    ensures
        rest@ == trimmed(text@),
{
    strip(text, None)
}

/// `text` without the characters of `set` at its ends.
pub fn trim_matches(text: &str, set: &[char]) -> (rest: String)
    ensures
        rest@ == trimmed_of(text@, set@),
{
    strip(text, Some(set))
}

/// The length of the run without white space that begins `text`.
pub open spec fn word_length(text: Seq<char>) -> int
    decreases text.len(),
{
    if text.len() == 0 || is_white(text[0]) {
        0
    } else {
        1 + word_length(text.skip(1))
    }
}

/// The longest runs of `text` without white space, from left to right.
pub open spec fn words(text: Seq<char>) -> Seq<Seq<char>>
    decreases text.len(),
    via words_decreases
{
    if text.len() == 0 {
        seq![]
    } else if is_white(text[0]) {
        words(text.skip(1))
    } else {
        seq![text.take(word_length(text))] + words(text.skip(word_length(text)))
    }
}

#[via_fn]
proof fn words_decreases(text: Seq<char>) {
    lemma_word_length(text);
}

proof fn lemma_word_length(text: Seq<char>)
    ensures
        0 <= word_length(text) <= text.len(),
        forall|i: int| 0 <= i < word_length(text) ==> !is_white(#[trigger] text[i]),
        word_length(text) < text.len() ==> is_white(text[word_length(text)]),
    decreases text.len(),
{
    if text.len() > 0 && !is_white(text[0]) {
        lemma_word_length(text.skip(1));
        assert forall|i: int| 0 <= i < word_length(text) implies !is_white(#[trigger] text[i]) by {
            if i > 0 {
                assert(text.skip(1)[i - 1] == text[i]);
            }
        }
    }
}

proof fn lemma_word_length_from(text: Seq<char>, i: int, j: int)
    requires
        0 <= i <= j <= text.len(),
        forall|k: int| i <= k < j ==> !is_white(#[trigger] text[k]),
    ensures
        word_length(text.skip(i)) == j - i + word_length(text.skip(j)),
    decreases j - i,
{
    if i < j {
        lemma_word_length_from(text, i + 1, j);
        assert(text.skip(i).skip(1) =~= text.skip(i + 1));
        assert(text.skip(i)[0] == text[i]);
    }
}

/// The words of `text`, from left to right.
pub fn split_whitespace(text: &str) -> (parts: Vec<String>)
    ensures
        parts.deep_view() == words(text@),
{
    let t = chars_of(text);
    let mut parts: Vec<String> = Vec::new();
    let mut i: usize = 0;
    assert(t@.skip(0) =~= t@);
    assert(parts.deep_view() =~= Seq::<Seq<char>>::empty());
    while i < t.len()
        invariant
            i <= t@.len(),
            words(t@) == parts.deep_view() + words(t@.skip(i as int)),
        decreases t@.len() - i,
    {
        if is_white_space(t[i]) {
            assert(t@.skip(i as int).skip(1) =~= t@.skip(i + 1));
            i += 1;
        } else {
            let from: usize = i;
            while i < t.len() && !is_white_space(t[i])
                invariant
                    from <= i <= t@.len(),
                    forall|k: int| from <= k < i ==> !is_white(#[trigger] t@[k]),
                decreases t@.len() - i,
            {
                i += 1;
            }
            let ghost rest = t@.skip(from as int);
            proof {
                lemma_word_length_from(t@, from as int, i as int);
                assert(i < t@.len() ==> t@.skip(i as int)[0] == t@[i as int]);
                assert(word_length(rest) == i - from);
                assert(rest.take(i - from) =~= t@.subrange(from as int, i as int));
                assert(rest.skip(i - from) =~= t@.skip(i as int));
                assert(rest[0] == t@[from as int]);
                assert(!is_white(rest[0])) by {
                    assert(from < i);
                }
            }
            let word = text_of(&t, from, i);
            let ghost before = parts.deep_view();
            parts.push(word);
            assert(parts.deep_view() =~= before.push(word@));
            assert(words(rest) == seq![word@] + words(t@.skip(i as int)));
            assert(before + words(rest) =~= parts.deep_view() + words(t@.skip(i as int)));
        }
    }
    assert(parts.deep_view() + words(t@.skip(i as int)) =~= parts.deep_view());
    parts
}

/// The first line of `text`, without its line ending.
pub open spec fn first_line(text: Seq<char>) -> Option<Seq<char>> {
    if text.len() == 0 {
        None
    } else {
        match first_at(text, "\n"@) {
            Some(i) => if has_suffix(text.take(i), "\r"@) {
                Some(text.take(i - 1))
            } else {
                Some(text.take(i))
            },
            None => Some(text),
        }
    }
}

/// The first line of `text`, without its line ending.
pub fn first_line_of(text: &str) -> (line: Option<String>)
    ensures
        line.deep_view() == first_line(text@),
{
    if text.is_empty() {
        return None;
    }
    let t = chars_of(text);
    match find(text, "\n") {
        Some(i) => {
            proof {
                lemma_first_at(text@, "\n"@);
                reveal_strlit("\r");
                assert(text@.take(i - 1) =~= text@.subrange(0, i - 1));
            }
            let line = text_of(&t, 0, i);
            assert(line@ =~= text@.take(i as int));
            if ends_with(line.as_str(), "\r") {
                Some(text_of(&t, 0, i - 1))
            } else {
                Some(line)
            }
        },
        None => Some(text.to_string()),
    }
}

/// The pieces one after the other, with `separator` between each two.
pub open spec fn joined(parts: Seq<Seq<char>>, separator: Seq<char>) -> Seq<char>
    decreases parts.len(),
{
    if parts.len() == 0 {
        seq![]
    } else if parts.len() == 1 {
        parts[0]
    } else {
        joined(parts.drop_last(), separator) + separator + parts.last()
    }
}

/// The pieces one after the other, with `separator` between each two.
pub fn join(parts: &Vec<String>, separator: &str) -> (text: String)
    ensures
        text@ == joined(parts.deep_view(), separator@),
{
    let mut text = String::new();
    let mut i: usize = 0;
    let ghost all = parts.deep_view();
    while i < parts.len()
        invariant
            all == parts.deep_view(),
            i <= parts@.len(),
            text@ == joined(all.take(i as int), separator@),
        decreases parts@.len() - i,
    {
        if i > 0 {
            text.append(separator);
        }
        text.append(parts[i].as_str());
        assert(all.take(i + 1).drop_last() =~= all.take(i as int));
        i += 1;
    }
    assert(all.take(i as int) =~= all);
    text
}

/// The words of `value`, one blank between each two.
pub open spec fn cleaned(value: Seq<char>) -> Seq<char> {
    joined(words(value), " "@)
}

/// The words of `value`, one blank between each two.
pub fn clean_label(value: &str) -> (label: String)
    ensures
        label@ == cleaned(value@),
{
    join(&split_whitespace(value), " ")
}

/// A text that is one word.
pub open spec fn is_word(text: Seq<char>) -> bool {
    text.len() > 0 && forall|i: int| 0 <= i < text.len() ==> !is_white(#[trigger] text[i])
}

proof fn lemma_words_of_word(word: Seq<char>)
    requires
        is_word(word),
    ensures
        words(word) == seq![word],
{
    lemma_word_length_from(word, 0, word.len() as int);
    assert(word.skip(0) =~= word);
    assert(!is_white(word[0]));
    assert(word.take(word.len() as int) =~= word);
    assert(words(word.skip(word.len() as int)) == Seq::<Seq<char>>::empty());
    assert(words(word) =~= seq![word]);
}

proof fn lemma_words_of_two(left: Seq<char>, right: Seq<char>)
    requires
        right.len() == 0 || is_white(right[0]),
    ensures
        words(left + right) == words(left) + words(right),
    decreases left.len(),
{
    let both = left + right;
    if left.len() == 0 {
        assert(both =~= right);
        assert(words(left) + words(right) =~= words(right));
    } else if is_white(left[0]) {
        assert(both[0] == left[0]);
        assert(both.skip(1) =~= left.skip(1) + right);
        lemma_words_of_two(left.skip(1), right);
    } else {
        let n = word_length(left);
        lemma_word_length(left);
        assert(both[0] == left[0]);
        assert forall|i: int| 0 <= i < n implies !is_white(#[trigger] both[i]) by {
            assert(both[i] == left[i]);
        }
        lemma_word_length_from(both, 0, n);
        assert(both.skip(0) =~= both);
        assert(word_length(both.skip(n)) == 0) by {
            if n < left.len() {
                assert(both.skip(n)[0] == left[n]);
            } else if right.len() > 0 {
                assert(both.skip(n)[0] == right[0]);
            }
        }
        assert(both.take(n) =~= left.take(n));
        assert(both.skip(n) =~= left.skip(n) + right);
        lemma_words_of_two(left.skip(n), right);
        assert(words(both) =~= words(left) + words(right));
    }
}

proof fn lemma_words_are_words(text: Seq<char>)
    ensures
        forall|i: int|
            0 <= i < words(text).len() ==> is_word(#[trigger] words(text)[i]),
    decreases text.len(),
{
    assert(text.len() == 0 ==> words(text).len() == 0);
    if text.len() > 0 {
        if is_white(text[0]) {
            lemma_words_are_words(text.skip(1));
            assert(words(text) == words(text.skip(1)));
        } else {
            let n = word_length(text);
            lemma_word_length(text);
            lemma_words_are_words(text.skip(n));
            assert(is_word(text.take(n)));
            assert forall|i: int| 0 <= i < words(text).len() implies is_word(
                #[trigger] words(text)[i],
            ) by {
                let rest = words(text.skip(n));
                assert(words(text) == seq![text.take(n)] + rest);
                if i > 0 {
                    assert(is_word(rest[i - 1]));
                }
            }
        }
    }
}

proof fn lemma_words_of_joined(parts: Seq<Seq<char>>)
    requires
        forall|i: int| 0 <= i < parts.len() ==> is_word(#[trigger] parts[i]),
    ensures
        words(joined(parts, " "@)) == parts,
    decreases parts.len(),
{
    if parts.len() == 1 {
        lemma_words_of_word(parts[0]);
        assert(seq![parts[0]] =~= parts);
    } else if parts.len() > 1 {
        let before = parts.drop_last();
        let last = parts.last();
        lemma_words_of_joined(before);
        lemma_words_of_word(last);
        reveal_strlit(" ");
        let end = " "@ + last;
        assert(is_white(end[0]));
        assert(end.skip(1) =~= last);
        assert(joined(parts, " "@) =~= joined(before, " "@) + end);
        lemma_words_of_two(joined(before, " "@), end);
        assert(before + seq![last] =~= parts);
    }
}

/// Cleaning a label keeps its words, and cleaning it once more changes nothing.
pub proof fn law_cleaning(value: Seq<char>)
    ensures
        words(cleaned(value)) == words(value),
        cleaned(cleaned(value)) == cleaned(value),
{
    lemma_words_are_words(value);
    lemma_words_of_joined(words(value));
}

proof fn lemma_stripped_start(text: Seq<char>, set: Option<Seq<char>>)
    ensures
        stripped_start(text, set).len() > 0 ==> !is_stripped(stripped_start(text, set)[0], set),
    decreases text.len(),
{
    if text.len() > 0 && is_stripped(text[0], set) {
        lemma_stripped_start(text.skip(1), set);
    }
}

proof fn lemma_stripped_end(text: Seq<char>, set: Option<Seq<char>>)
    ensures
        stripped_end(text, set).is_prefix_of(text),
        stripped_end(text, set).len() > 0 ==> !is_stripped(stripped_end(text, set).last(), set),
    decreases text.len(),
{
    if text.len() > 0 && is_stripped(text.last(), set) {
        lemma_stripped_end(text.drop_last(), set);
    }
}

/// A trimmed text neither begins nor ends with white space, and trimming it once more changes
/// nothing.
pub proof fn law_trimming(text: Seq<char>)
    ensures
        trimmed(text).len() > 0 ==> !is_white(trimmed(text)[0]) && !is_white(trimmed(text).last()),
        trimmed(trimmed(text)) == trimmed(text),
{
    lemma_stripped_start(text, None);
    lemma_stripped_end(stripped_start(text, None), None);
}

/// `c` with the letters `A` to `Z` made small.
pub open spec fn ascii_lower_char(c: char) -> char {
    if 'A' as u32 <= c as u32 <= 'Z' as u32 {
        (c as u32 + 32) as char
    } else {
        c
    }
}

/// `text` with the letters `A` to `Z` made small.
pub open spec fn ascii_lowered(text: Seq<char>) -> Seq<char> {
    text.map_values(|c: char| ascii_lower_char(c))
}

/// `text` with the letters `A` to `Z` made small.
pub fn to_ascii_lowercase(text: &str) -> (lower: String)
    ensures
        lower@ == ascii_lowered(text@),
{
    let t = chars_of(text);
    let mut lower = String::new();
    let mut i: usize = 0;
    while i < t.len()
        invariant
            i <= t@.len(),
            lower@ == ascii_lowered(t@.take(i as int)),
        decreases t@.len() - i,
    {
        let u: u32 = t[i] as u32;
        if 65 <= u && u <= 90 {
            lower.push(((u + 32) as u8) as char);
        } else {
            lower.push(t[i]);
        }
        assert(ascii_lowered(t@.take(i + 1)) =~= ascii_lowered(t@.take(i as int)).push(
            ascii_lower_char(t@[i as int]),
        ));
        i += 1;
    }
    assert(t@.take(i as int) =~= t@);
    lower
}

/// `text` with each occurrence of `from` replaced by `to`, from left to right and without overlaps.
pub open spec fn replaced(text: Seq<char>, from: Seq<char>, to: Seq<char>) -> Seq<char>
    decreases text.len(),
{
    if from.len() == 0 || text.len() == 0 {
        text
    } else if has_prefix(text, from) {
        to + replaced(text.skip(from.len() as int), from, to)
    } else {
        seq![text[0]] + replaced(text.skip(1), from, to)
    }
}

/// `text` with each occurrence of `from` replaced by `to`, from left to right and without overlaps.
pub fn replace(text: &str, from: &str, to: &str) -> (result: String)
    requires
        from@.len() > 0,
    ensures
        result@ == replaced(text@, from@, to@),
{
    let t = chars_of(text);
    let f = chars_of(from);
    let mut result = String::new();
    let mut i: usize = 0;
    assert(t@.skip(0) =~= t@);
    while i < t.len()
        invariant
            f@ == from@,
            f@.len() > 0,
            i <= t@.len(),
            replaced(t@, from@, to@) == result@ + replaced(t@.skip(i as int), from@, to@),
        decreases t@.len() - i,
    {
        let ghost rest = t@.skip(i as int);
        let ghost before = result@;
        if matches_at(&t, &f, i) {
            assert(rest.subrange(0, f@.len() as int) =~= t@.subrange(i as int, i + f@.len()));
            assert(rest.skip(f@.len() as int) =~= t@.skip(i + f@.len()));
            result.append(to);
            i += f.len();
            assert(before + (to@ + replaced(t@.skip(i as int), from@, to@)) =~= result@ + replaced(
                t@.skip(i as int),
                from@,
                to@,
            ));
        } else {
            proof {
                if has_prefix(rest, f@) {
                    assert(t@.subrange(i as int, i + f@.len()) =~= rest.subrange(0, f@.len() as int));
                }
                assert(rest.skip(1) =~= t@.skip(i + 1));
            }
            result.push(t[i]);
            i += 1;
            assert(before + (seq![rest[0]] + replaced(t@.skip(i as int), from@, to@)) =~= result@
                + replaced(t@.skip(i as int), from@, to@));
        }
    }
    assert(t@.skip(i as int) =~= Seq::<char>::empty());
    assert(result@ + Seq::<char>::empty() =~= result@);
    result
}

/// `left` comes before `right` in the order of dictionaries, characters by code point.
pub open spec fn precedes(left: Seq<char>, right: Seq<char>) -> bool
    decreases left.len(),
{
    if right.len() == 0 {
        false
    } else if left.len() == 0 {
        true
    } else if left[0] == right[0] {
        precedes(left.skip(1), right.skip(1))
    } else {
        (left[0] as u32) < (right[0] as u32)
    }
}

/// Whether `left` comes before `right`, characters by code point.
pub fn comes_before(left: &str, right: &str) -> (before: bool)
    ensures
        before == precedes(left@, right@),
{
    let l = chars_of(left);
    let r = chars_of(right);
    let mut i: usize = 0;
    assert(l@.skip(0) =~= l@);
    assert(r@.skip(0) =~= r@);
    while i < l.len() && i < r.len()
        invariant
            l@ == left@,
            r@ == right@,
            i <= l@.len(),
            i <= r@.len(),
            precedes(left@, right@) == precedes(l@.skip(i as int), r@.skip(i as int)),
        decreases l@.len() - i,
    {
        if l[i] != r[i] {
            return (l[i] as u32) < (r[i] as u32);
        }
        assert(l@.skip(i as int).skip(1) =~= l@.skip(i + 1));
        assert(r@.skip(i as int).skip(1) =~= r@.skip(i + 1));
        i += 1;
    }
    i < r.len()
}

/// A piece of a text is found in it, at the start where it stands first and at the end where it
/// stands last.
pub proof fn law_pieces_are_found(before: Seq<char>, piece: Seq<char>, after: Seq<char>)
    ensures
        has_text(before + piece + after, piece),
        has_prefix(piece + after, piece),
        has_suffix(before + piece, piece),
{
    assert((before + piece + after).subrange(
        before.len() as int,
        (before.len() + piece.len()) as int,
    ) =~= piece);
    assert(occurs_at(before + piece + after, piece, before.len() as int));
    assert((piece + after).subrange(0, piece.len() as int) =~= piece);
    assert((before + piece).subrange(
        before.len() as int,
        (before.len() + piece.len()) as int,
    ) =~= piece);
}

/// What is found in a text is a piece of it: the text is made of it and of what stands around it.
pub proof fn law_finds_are_pieces(text: Seq<char>, piece: Seq<char>)
    ensures
        has_text(text, piece) ==> exists|before: Seq<char>, after: Seq<char>|
            text == #[trigger] (before + piece + after),
        has_prefix(text, piece) ==> text == piece + text.skip(piece.len() as int),
        has_suffix(text, piece) ==> text == text.take(text.len() - piece.len()) + piece,
{
    if has_text(text, piece) {
        let i = choose|i: int| occurs_at(text, piece, i);
        let before = text.take(i);
        let after = text.skip(i + piece.len());
        assert forall|k: int| 0 <= k < piece.len() implies text[i + k] == piece[k] by {
            assert(text.subrange(i, i + piece.len())[k] == piece[k]);
        }
        assert(text =~= before + piece + after);
    }
    if has_prefix(text, piece) {
        assert forall|k: int| 0 <= k < piece.len() implies text[k] == piece[k] by {
            assert(text.subrange(0, piece.len() as int)[k] == piece[k]);
        }
        assert(text =~= piece + text.skip(piece.len() as int));
    }
    if has_suffix(text, piece) {
        let i = text.len() - piece.len();
        assert forall|k: int| 0 <= k < piece.len() implies text[i + k] == piece[k] by {
            assert(text.subrange(i, i + piece.len())[k] == piece[k]);
        }
        assert(text =~= text.take(i) + piece);
    }
}

/// What is found in a part of a text is found in the text.
pub proof fn law_parts_hold_no_more(before: Seq<char>, part: Seq<char>, after: Seq<char>, piece: Seq<char>)
    requires
        has_text(part, piece),
    ensures
        has_text(before + part + after, piece),
        has_text(part + after, piece),
        has_text(before + part, piece),
{
    let i = choose|i: int| occurs_at(part, piece, i);
    let n = piece.len() as int;
    assert((before + part + after).subrange(before.len() + i, before.len() + i + n)
        =~= part.subrange(i, i + n));
    assert(occurs_at(before + part + after, piece, before.len() + i));
    assert((part + after).subrange(i, i + n) =~= part.subrange(i, i + n));
    assert(occurs_at(part + after, piece, i));
    assert((before + part).subrange(before.len() + i, before.len() + i + n) =~= part.subrange(
        i,
        i + n,
    ));
    assert(occurs_at(before + part, piece, before.len() + i));
}

/// A piece without the character `c` that is found in two texts with `c` between them is found in
/// one of the two.
pub proof fn law_pieces_do_not_span(left: Seq<char>, c: char, right: Seq<char>, piece: Seq<char>)
    requires
        !piece.contains(c),
    ensures
        has_text(left + seq![c] + right, piece) <==> has_text(left, piece) || has_text(
            right,
            piece,
        ),
{
    let all = left + seq![c] + right;
    let n = piece.len() as int;
    if has_text(all, piece) {
        let i = choose|i: int| occurs_at(all, piece, i);
        let k = left.len() as int;
        if i <= k < i + n {
            assert(all.subrange(i, i + n)[k - i] == c);
            assert(piece[k - i] == c);
        } else if i + n <= k {
            assert(left.subrange(i, i + n) =~= all.subrange(i, i + n));
            assert(occurs_at(left, piece, i));
        } else {
            assert(right.subrange(i - k - 1, i - k - 1 + n) =~= all.subrange(i, i + n));
            assert(occurs_at(right, piece, i - k - 1));
        }
    }
    if has_text(left, piece) {
        law_parts_hold_no_more(seq![], left, seq![c] + right, piece);
        assert(all =~= left + (seq![c] + right));
    }
    if has_text(right, piece) {
        law_parts_hold_no_more(left + seq![c], right, seq![], piece);
    }
}

/// A search finds a piece where it stands, unless it stands further left too.
pub proof fn law_search(before: Seq<char>, piece: Seq<char>, after: Seq<char>)
    requires
        piece.len() > 0,
        !has_text((before + piece).drop_last(), piece),
    ensures
        first_at(before + piece + after, piece) == Some(before.len() as int),
{
    let text = before + piece + after;
    let n = piece.len() as int;
    law_pieces_are_found(before, piece, after);
    lemma_first_at(text, piece);
    if let Some(i) = first_at(text, piece) {
        assert(text.subrange(before.len() as int, before.len() + n) =~= piece);
        assert(occurs_at(text, piece, before.len() as int));
        if i < before.len() {
            let head = (before + piece).drop_last();
            assert(head.subrange(i, i + n) =~= text.subrange(i, i + n));
            assert(occurs_at(head, piece, i));
        }
    }
}

/// All characters are white space.
pub open spec fn is_blank(text: Seq<char>) -> bool {
    forall|i: int| 0 <= i < text.len() ==> is_white(#[trigger] text[i])
}

proof fn lemma_strip_around(left: Seq<char>, core: Seq<char>, right: Seq<char>, set: Option<Seq<char>>)
    requires
        forall|i: int| 0 <= i < left.len() ==> is_stripped(#[trigger] left[i], set),
        forall|i: int| 0 <= i < right.len() ==> is_stripped(#[trigger] right[i], set),
        core.len() > 0 ==> !is_stripped(core[0], set) && !is_stripped(core.last(), set),
    ensures
        stripped_end(stripped_start(left + core + right, set), set) == core,
    decreases left.len() + right.len(),
{
    let all = left + core + right;
    if left.len() > 0 {
        assert(all[0] == left[0]);
        assert(all.skip(1) =~= left.skip(1) + core + right);
        assert forall|i: int| 0 <= i < left.skip(1).len() implies is_stripped(
            #[trigger] left.skip(1)[i],
            set,
        ) by {
            assert(left.skip(1)[i] == left[i + 1]);
        }
        lemma_strip_around(left.skip(1), core, right, set);
    } else if core.len() == 0 {
        if right.len() > 0 {
            assert(all =~= right);
            assert(right.skip(1) =~= left + core + right.skip(1));
            assert forall|i: int| 0 <= i < right.skip(1).len() implies is_stripped(
                #[trigger] right.skip(1)[i],
                set,
            ) by {
                assert(right.skip(1)[i] == right[i + 1]);
            }
            lemma_strip_around(left, core, right.skip(1), set);
        } else {
            assert(all =~= core);
        }
    } else {
        assert(all[0] == core[0]);
        if right.len() > 0 {
            let less = right.drop_last();
            assert(all.last() == right.last());
            assert(right[right.len() - 1] == right.last());
            assert(all.drop_last() =~= left + core + less);
            assert forall|i: int| 0 <= i < less.len() implies is_stripped(#[trigger] less[i], set) by {
                assert(less[i] == right[i]);
            }
            lemma_strip_around(left, core, less, set);
            assert((left + core + less)[0] == core[0]);
        } else {
            assert(all =~= core);
        }
    }
}

/// The white characters are the five controls from the tab to the carriage return, the blank, and
/// those that Unicode adds outside ASCII: the next line, the spaces that do not break, the spaces
/// of a set width, and the separators of lines and paragraphs.
pub proof fn law_white_characters(c: char)
    ensures
        is_white(c) <==> seq![
            '\t', '\n', '\u{b}', '\u{c}', '\r', ' ',
            '\u{85}', '\u{a0}', '\u{1680}',
            '\u{2000}', '\u{2001}', '\u{2002}', '\u{2003}', '\u{2004}', '\u{2005}',
            '\u{2006}', '\u{2007}', '\u{2008}', '\u{2009}', '\u{200a}',
            '\u{2028}', '\u{2029}', '\u{202f}', '\u{205f}', '\u{3000}',
        ].contains(c),
{
    let all = seq![
        '\t', '\n', '\u{b}', '\u{c}', '\r', ' ',
        '\u{85}', '\u{a0}', '\u{1680}',
        '\u{2000}', '\u{2001}', '\u{2002}', '\u{2003}', '\u{2004}', '\u{2005}',
        '\u{2006}', '\u{2007}', '\u{2008}', '\u{2009}', '\u{200a}',
        '\u{2028}', '\u{2029}', '\u{202f}', '\u{205f}', '\u{3000}',
    ];
    let u = c as u32;
    if is_white(c) {
        let i: int = if u <= 0xd {
            u - 9
        } else if u == 0x20 {
            5
        } else if u == 0x85 {
            6
        } else if u == 0xa0 {
            7
        } else if u == 0x1680 {
            8
        } else if u <= 0x200a {
            u - 0x2000 + 9
        } else if u == 0x2028 {
            20
        } else if u == 0x2029 {
            21
        } else if u == 0x202f {
            22
        } else if u == 0x205f {
            23
        } else {
            24
        };
        assert(all[i] == c);
    }
}

/// Trimming takes away exactly the white space at the ends, and nothing that stands inside.
pub proof fn law_trimming_keeps_the_core(left: Seq<char>, core: Seq<char>, right: Seq<char>)
    requires
        is_blank(left),
        is_blank(right),
        core.len() > 0 ==> !is_white(core[0]) && !is_white(core.last()),
    ensures
        trimmed(left + core + right) == core,
{
    lemma_strip_around(left, core, right, None);
}

/// Stripping a set of characters takes away exactly these at the ends, and nothing that stands
/// inside.
pub proof fn law_stripping_keeps_the_core(
    left: Seq<char>,
    core: Seq<char>,
    right: Seq<char>,
    set: Seq<char>,
)
    requires
        forall|i: int| 0 <= i < left.len() ==> set.contains(#[trigger] left[i]),
        forall|i: int| 0 <= i < right.len() ==> set.contains(#[trigger] right[i]),
        core.len() > 0 ==> !set.contains(core[0]) && !set.contains(core.last()),
    ensures
        trimmed_of(left + core + right, set) == core,
{
    lemma_strip_around(left, core, right, Some(set));
}

/// White space parts words, and a run without white space is one word.
pub proof fn law_words(left: Seq<char>, c: char, right: Seq<char>)
    requires
        is_white(c),
    ensures
        words(left + seq![c] + right) == words(left) + words(right),
        is_word(left) ==> words(left) == seq![left],
        left.len() == 0 ==> words(left).len() == 0,
{
    let tail = seq![c] + right;
    assert(left + seq![c] + right =~= left + tail);
    lemma_words_of_two(left, tail);
    assert(tail.skip(1) =~= right);
    if is_word(left) {
        lemma_words_of_word(left);
    }
}

/// Two lists of pieces, joined one after the other, are joined by the separator.
pub proof fn law_joining(left: Seq<Seq<char>>, right: Seq<Seq<char>>, separator: Seq<char>)
    ensures
        joined(left + right, separator) == if left.len() == 0 {
            joined(right, separator)
        } else if right.len() == 0 {
            joined(left, separator)
        } else {
            joined(left, separator) + separator + joined(right, separator)
        },
        left.len() == 1 ==> joined(left, separator) == left[0],
        left.len() == 0 ==> joined(left, separator).len() == 0,
    decreases right.len(),
{
    let all = left + right;
    if right.len() == 0 {
        assert(all =~= left);
    } else if left.len() == 0 {
        assert(all =~= right);
    } else {
        law_joining(left, right.drop_last(), separator);
        assert(all.drop_last() =~= left + right.drop_last());
        assert(all.last() == right.last());
        if right.len() == 1 {
            assert(all.drop_last() =~= left);
        } else {
            assert(joined(all, separator) =~= joined(left, separator) + separator + joined(
                right,
                separator,
            ));
        }
    }
}

/// The first line ends before the first line feed, and before the carriage return in front of it.
pub proof fn law_first_line(line: Seq<char>, rest: Seq<char>)
    requires
        !line.contains('\n'),
        line.len() > 0 ==> line.last() != '\r',
    ensures
        first_line(line + "\n"@ + rest) == Some(line),
        first_line(line + "\r\n"@ + rest) == Some(line),
        line.len() > 0 ==> first_line(line) == Some(line),
{
    reveal_strlit("\n");
    reveal_strlit("\r");
    reveal_strlit("\r\n");
    let feed = "\n"@;
    assert forall|text: Seq<char>| !text.contains('\n') implies !#[trigger] has_text(text, feed) by {
        if has_text(text, feed) {
            let i = choose|i: int| occurs_at(text, feed, i);
            assert(text.subrange(i, i + 1)[0] == '\n');
            assert(text[i] == '\n');
        }
    }
    let one = line + feed + rest;
    assert((line + feed).drop_last() =~= line);
    law_search(line, feed, rest);
    assert(one.take(line.len() as int) =~= line);
    if has_suffix(line, "\r"@) {
        law_finds_are_pieces(line, "\r"@);
        assert(line.last() == '\r');
    }
    let longer = line.push('\r');
    let two = line + "\r\n"@ + rest;
    assert(two =~= longer + feed + rest);
    assert((longer + feed).drop_last() =~= longer);
    assert(!longer.contains('\n')) by {
        if longer.contains('\n') {
            let k = choose|k: int| 0 <= k < longer.len() && longer[k] == '\n';
            assert(line[k] == '\n');
        }
    }
    law_search(longer, feed, rest);
    assert(two.take(longer.len() as int) =~= longer);
    assert(longer =~= line + "\r"@);
    law_pieces_are_found(line, "\r"@, seq![]);
    assert(two.take(longer.len() - 1) =~= line);
    lemma_first_at(line, feed);
}

/// Replacing leaves what stands before the first occurrence, puts the new text for it, and goes on
/// behind it; a text without an occurrence stays as it is.
pub proof fn law_replacing(before: Seq<char>, from: Seq<char>, after: Seq<char>, to: Seq<char>)
    requires
        from.len() > 0,
        !has_text((before + from).drop_last(), from),
    ensures
        replaced(before + from + after, from, to) == before + to + replaced(after, from, to),
        replaced(before, from, to) == before,
    decreases before.len(),
{
    let all = before + from + after;
    law_pieces_are_found(seq![], from, after);
    if before.len() == 0 {
        assert(all =~= from + after);
        assert(all.skip(from.len() as int) =~= after);
        assert(before + to + replaced(after, from, to) =~= to + replaced(after, from, to));
        assert(replaced(before, from, to) =~= before);
    } else {
        let rest = before.skip(1);
        let head = (before + from).drop_last();
        if has_prefix(all, from) {
            assert(head.subrange(0, from.len() as int) =~= all.subrange(0, from.len() as int));
            assert(occurs_at(head, from, 0));
        }
        if has_prefix(before, from) {
            assert(head.subrange(0, from.len() as int) =~= before.subrange(0, from.len() as int));
            assert(occurs_at(head, from, 0));
        }
        let tail = (rest + from).drop_last();
        assert(!has_text(tail, from)) by {
            if has_text(tail, from) {
                law_parts_hold_no_more(seq![before[0]], tail, seq![], from);
                assert(seq![before[0]] + tail =~= head);
            }
        }
        assert(all.skip(1) =~= rest + from + after);
        law_replacing(rest, from, after, to);
        assert(seq![before[0]] + (rest + to + replaced(after, from, to)) =~= before + to
            + replaced(after, from, to));
        assert(seq![before[0]] + rest =~= before);
    }
}

/// Texts are ordered by the first character in which they differ, and a text comes before all that
/// begin with it.
pub proof fn law_order_of_texts(common: Seq<char>, left: Seq<char>, right: Seq<char>)
    ensures
        left.len() > 0 && right.len() > 0 && left[0] != right[0] ==> precedes(
            common + left,
            common + right,
        ) == ((left[0] as u32) < (right[0] as u32)),
        precedes(common, common + right) == (right.len() > 0),
        !precedes(common + left, common),
    decreases common.len(),
{
    if common.len() == 0 {
        assert(common + left =~= left);
        assert(common + right =~= right);
    } else {
        let rest = common.skip(1);
        law_order_of_texts(rest, left, right);
        assert((common + left).skip(1) =~= rest + left);
        assert((common + right).skip(1) =~= rest + right);
    }
}

/// Making letters small changes the letters `A` to `Z` alone, each into the small letter.
pub proof fn law_small_letters(text: Seq<char>, i: int)
    requires
        0 <= i < text.len(),
    ensures
        ascii_lowered(text).len() == text.len(),
        'A' as u32 <= text[i] as u32 <= 'Z' as u32 ==> ascii_lowered(text)[i] as u32 == text[i]
            as u32 + ('a' as u32 - 'A' as u32),
        !('A' as u32 <= text[i] as u32 <= 'Z' as u32) ==> ascii_lowered(text)[i] == text[i],
{
}

/// A cleaned label has one blank where white space parted its words.
pub proof fn law_cleaning_leaves_one_blank(left: Seq<char>, c: char, right: Seq<char>)
    requires
        is_white(c),
    ensures
        cleaned(left + seq![c] + right) == if words(left).len() == 0 {
            cleaned(right)
        } else if words(right).len() == 0 {
            cleaned(left)
        } else {
            cleaned(left) + seq![' '] + cleaned(right)
        },
        is_word(left) ==> cleaned(left) == left,
        words(left).len() == 0 ==> cleaned(left).len() == 0,
{
    reveal_strlit(" ");
    assert(" "@ =~= seq![' ']);
    law_words(left, c, right);
    law_joining(words(left), words(right), " "@);
    law_joining(words(left), seq![], " "@);
}

} // verus!
