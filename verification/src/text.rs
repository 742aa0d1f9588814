//! Small operations on text: comparison, prefixes, suffixes and rewriting.

use vstd::prelude::*;

verus! {

/// Appends a character with `String::push`, which adds the character to the end of
/// the string.
pub assume_specification[ String::push ](text: &mut String, character: char)
    ensures
        final(text)@ == old(text)@.push(character),
;

/// The text ends with this suffix.
pub open spec fn has_suffix(text: Seq<char>, suffix: Seq<char>) -> bool {
    text.len() >= suffix.len() && text.skip(text.len() - suffix.len()) == suffix
}

/// The text starts with this prefix.
pub open spec fn has_prefix(text: Seq<char>, prefix: Seq<char>) -> bool {
    text.len() >= prefix.len() && text.take(prefix.len() as int) == prefix
}

/// `a` comes before `b` in the order of their characters: they first differ in a
/// smaller character of `a`, or `a` is a shorter beginning of `b`.
pub open spec fn precedes(a: Seq<char>, b: Seq<char>) -> bool
    decreases a.len(),
{
    if b.len() == 0 {
        false
    } else if a.len() == 0 {
        true
    } else if a[0] == b[0] {
        precedes(a.drop_first(), b.drop_first())
    } else {
        a[0] < b[0]
    }
}

/// Whether part of one text, from a position on, is another text.
fn matches_at(text: &str, start: usize, part: &str) -> (same: bool)
    requires
        start + part@.len() <= text@.len(),
    ensures
        same == (text@.subrange(start as int, start + part@.len()) == part@),
{
    let count: usize = part.unicode_len();
    let total: usize = text.unicode_len();
    let mut i: usize = 0;
    while i < count
        invariant
            count == part@.len(),
            total == text@.len(),
            i <= count,
            start + count <= total,
            forall|j: int| 0 <= j < i ==> text@[start + j] == #[trigger] part@[j],
        decreases count - i,
    {
        if text.get_char(start + i) != part.get_char(i) {
            assert(text@.subrange(start as int, start + part@.len())[i as int] != part@[i as int]);
            return false;
        }
        i += 1;
    }
    assert(text@.subrange(start as int, start + part@.len()) =~= part@);
    true
}

pub fn same_text(a: &str, b: &str) -> (same: bool)
    ensures
        same == (a@ == b@),
{
    if a.unicode_len() != b.unicode_len() {
        return false;
    }
    assert(a@.subrange(0, a@.len() as int) =~= a@);
    matches_at(a, 0, b)
}

/// The text before a suffix.
pub fn strip_suffix(text: &str, suffix: &str) -> (rest: Option<String>)
    ensures
        rest is Some <==> has_suffix(text@, suffix@),
        rest matches Some(front) ==> front@ == text@.take(text@.len() - suffix@.len()),
{
    let total: usize = text.unicode_len();
    let count: usize = suffix.unicode_len();
    if count > total {
        return None;
    }
    assert(text@.skip(total - count) =~= text@.subrange(total - count, total as int));
    if matches_at(text, total - count, suffix) {
        assert(text@.take(total - count) =~= text@.subrange(0, total - count));
        Some(text.substring_char(0, total - count).to_owned())
    } else {
        None
    }
}

/// The text behind a prefix.
pub fn strip_prefix(text: &str, prefix: &str) -> (rest: Option<String>)
    ensures
        rest is Some <==> has_prefix(text@, prefix@),
        rest matches Some(back) ==> back@ == text@.skip(prefix@.len() as int),
{
    let total: usize = text.unicode_len();
    let count: usize = prefix.unicode_len();
    if count > total {
        return None;
    }
    assert(text@.take(count as int) =~= text@.subrange(0, count as int));
    if matches_at(text, 0, prefix) {
        assert(text@.skip(count as int) =~= text@.subrange(count as int, total as int));
        Some(text.substring_char(count, total).to_owned())
    } else {
        None
    }
}

/// The position of the last occurrence of a character.
pub fn last_position(text: &str, wanted: char) -> (found: Option<usize>)
    ensures
        match found {
            None => forall|i: int| 0 <= i < text@.len() ==> #[trigger] text@[i] != wanted,
            Some(p) => p < text@.len() && text@[p as int] == wanted && forall|i: int|
                p < i < text@.len() ==> #[trigger] text@[i] != wanted,
        },
{
    let total: usize = text.unicode_len();
    let mut i: usize = total;
    while i > 0
        invariant
            total == text@.len(),
            i <= total,
            forall|j: int| i <= j < total ==> #[trigger] text@[j] != wanted,
        decreases i,
    {
        i -= 1;
        if text.get_char(i) == wanted {
            return Some(i);
        }
    }
    None
}

/// Whether one text comes before another.
pub fn comes_before(a: &str, b: &str) -> (before: bool)
    ensures
        before == precedes(a@, b@),
{
    let first: usize = a.unicode_len();
    let second: usize = b.unicode_len();
    let mut i: usize = 0;
    assert(a@.skip(0) =~= a@);
    assert(b@.skip(0) =~= b@);
    while i < first && i < second
        invariant
            first == a@.len(),
            second == b@.len(),
            i <= first,
            i <= second,
            precedes(a@, b@) == precedes(a@.skip(i as int), b@.skip(i as int)),
        decreases first - i,
    {
        let left: char = a.get_char(i);
        let right: char = b.get_char(i);
        if left != right {
            return left < right;
        }
        assert(a@.skip(i as int).drop_first() =~= a@.skip(i + 1));
        assert(b@.skip(i as int).drop_first() =~= b@.skip(i + 1));
        i += 1;
    }
    i < second
}

/// Of two different texts one comes before the other, and not both.
pub proof fn lemma_order_is_total(a: Seq<char>, b: Seq<char>)
    ensures
        precedes(a, b) || precedes(b, a) || a == b,
        !(precedes(a, b) && precedes(b, a)),
        !precedes(a, a),
    decreases a.len(),
{
    if a.len() > 0 {
        lemma_order_is_total(a.drop_first(), a.drop_first());
    }
    if a.len() > 0 && b.len() > 0 {
        if a[0] == b[0] {
            lemma_order_is_total(a.drop_first(), b.drop_first());
            if a.drop_first() == b.drop_first() {
                assert(a =~= seq![a[0]] + a.drop_first());
                assert(b =~= seq![b[0]] + b.drop_first());
            }
        }
    } else if a.len() == 0 && b.len() == 0 {
        assert(a =~= b);
    }
}

/// The order carries over from one text to the next.
pub proof fn lemma_order_is_transitive(a: Seq<char>, b: Seq<char>, c: Seq<char>)
    requires
        precedes(a, b),
        precedes(b, c),
    ensures
        precedes(a, c),
    decreases a.len(),
{
    if a.len() > 0 && a[0] == b[0] && b[0] == c[0] {
        lemma_order_is_transitive(a.drop_first(), b.drop_first(), c.drop_first());
    }
}

/// Every backslash becomes a slash; with `fold_case`, capital ASCII letters become
/// small ones.
pub open spec fn folded(character: char, fold_case: bool) -> char {
    if character == '\\' {
        '/'
    } else if fold_case && 'A' <= character <= 'Z' {
        ((character as u32) + 32) as char
    } else {
        character
    }
}

fn fold(character: char, fold_case: bool) -> (result: char)
    ensures
        result == folded(character, fold_case),
{
    if character == '\\' {
        '/'
    } else if fold_case && 'A' <= character && character <= 'Z' {
        let lowered: u8 = (character as u8) + 32;
        lowered as char
    } else {
        character
    }
}

/// Rewrites a path so that spellings of one path on one system agree.
pub fn fold_path(path: &str, fold_case: bool) -> (result: String)
    ensures
        result@ == path@.map_values(|c: char| folded(c, fold_case)),
{
    let total: usize = path.unicode_len();
    let mut result: String = String::new();
    let mut i: usize = 0;
    while i < total
        invariant
            total == path@.len(),
            i <= total,
            result@.len() == i,
            forall|j: int| 0 <= j < i ==> #[trigger] result@[j] == folded(path@[j], fold_case),
        decreases total - i,
    {
        result.push(fold(path.get_char(i), fold_case));
        i += 1;
    }
    result
}

/// The texts of some strings.
pub open spec fn texts(strings: Seq<String>) -> Seq<Seq<char>> {
    strings.map_values(|s: String| s@)
}

/// Every text comes before the next.
pub open spec fn is_ascending(list: Seq<Seq<char>>) -> bool {
    forall|i: int, j: int|
        0 <= i < j < list.len() ==> precedes(#[trigger] list[i], #[trigger] list[j])
}

/// Adds a text to an ascending list unless it is there.
pub fn insert_text(list: &mut Vec<String>, text: String)
    requires
        is_ascending(texts(old(list)@)),
    ensures
        is_ascending(texts(final(list)@)),
        forall|other: Seq<char>| #[trigger]
            texts(final(list)@).contains(other) == (texts(old(list)@).contains(other) || other
                == text@),
{
    let ghost before = texts(list@);
    let mut i: usize = 0;
    while i < list.len() && comes_before(list[i].as_str(), text.as_str())
        invariant
            i <= list@.len(),
            before == texts(list@),
            forall|j: int| 0 <= j < i ==> precedes(#[trigger] before[j], text@),
        decreases list@.len() - i,
    {
        assert(before[i as int] == list@[i as int]@);
        i += 1;
    }
    let count: usize = list.len();
    if i < count {
        assert(before[i as int] == list@[i as int]@);
        if same_text(list[i].as_str(), text.as_str()) {
            assert(before[i as int] == text@);
            return ;
        }
    }
    list.insert(i, text);
    proof {
        let after = texts(list@);
        assert(after =~= before.insert(i as int, text@));
        if i < count {
            lemma_order_is_total(before[i as int], text@);
        }
        assert forall|a: int, b: int| 0 <= a < b < after.len() implies precedes(
            #[trigger] after[a],
            #[trigger] after[b],
        ) by {
            if a == i {
                assert(after[b] == before[b - 1]);
                if b - 1 > i {
                    lemma_order_is_transitive(text@, before[i as int], before[b - 1]);
                }
            } else if b == i {
                assert(after[a] == before[a]);
            } else {
                let x = if a < i {
                    a
                } else {
                    a - 1
                };
                let y = if b < i {
                    b
                } else {
                    b - 1
                };
                assert(after[a] == before[x]);
                assert(after[b] == before[y]);
            }
        }
        assert forall|other: Seq<char>| #[trigger] after.contains(other) == (before.contains(other)
            || other == text@) by {
            if before.contains(other) {
                let k = choose|k: int| 0 <= k < before.len() && before[k] == other;
                let source = if k < i {
                    k
                } else {
                    k + 1
                };
                assert(after[source] == other);
            }
            if other == text@ {
                assert(after[i as int] == other);
            }
            if after.contains(other) {
                let k = choose|k: int| 0 <= k < after.len() && after[k] == other;
                if k < i {
                    assert(before[k] == other);
                } else if k > i {
                    assert(before[k - 1] == other);
                }
            }
        }
    }
}

/// Whether a list holds a text.
pub fn holds_text(list: &Vec<String>, text: &str) -> (holds: bool)
    ensures
        holds == texts(list@).contains(text@),
{
    let ghost all = texts(list@);
    let mut i: usize = 0;
    while i < list.len()
        invariant
            i <= list@.len(),
            all == texts(list@),
            forall|j: int| 0 <= j < i ==> #[trigger] all[j] != text@,
        decreases list@.len() - i,
    {
        if same_text(list[i].as_str(), text) {
            assert(all[i as int] == text@);
            return true;
        }
        assert(all[i as int] == list@[i as int]@);
        i += 1;
    }
    false
}

/// A character that separates words.
pub open spec fn is_white_space(c: char) -> bool {
    ||| '\u{9}' <= c <= '\u{d}'
    ||| c == ' '
    ||| c == '\u{85}'
    ||| c == '\u{a0}'
    ||| c == '\u{1680}'
    ||| '\u{2000}' <= c <= '\u{200a}'
    ||| c == '\u{2028}'
    ||| c == '\u{2029}'
    ||| c == '\u{202f}'
    ||| c == '\u{205f}'
    ||| c == '\u{3000}'
}

/// Nothing but white space.
pub open spec fn is_blank(text: Seq<char>) -> bool {
    forall|i: int| 0 <= i < text.len() ==> is_white_space(#[trigger] text[i])
}

/// Whether a text holds nothing but white space.
pub fn blank(text: &str) -> (empty: bool)
    ensures
        empty == is_blank(text@),
{
    let total: usize = text.unicode_len();
    let mut i: usize = 0;
    while i < total
        invariant
            total == text@.len(),
            i <= total,
            forall|j: int| 0 <= j < i ==> is_white_space(#[trigger] text@[j]),
        decreases total - i,
    {
        let c: char = text.get_char(i);
        let space: bool = ('\u{9}' <= c && c <= '\u{d}') || c == ' ' || c == '\u{85}' || c
            == '\u{a0}' || c == '\u{1680}' || ('\u{2000}' <= c && c <= '\u{200a}') || c
            == '\u{2028}' || c == '\u{2029}' || c == '\u{202f}' || c == '\u{205f}' || c
            == '\u{3000}';
        if !space {
            assert(!is_white_space(text@[i as int]));
            return false;
        }
        i += 1;
    }
    true
}

/// Folding makes no two paths the same that differ in more than the kind of slash and, where case
/// is ignored, in the case of ASCII letters.
pub proof fn law_folding_joins_only_spellings(a: char, b: char, fold_case: bool)
    requires
        folded(a, fold_case) == folded(b, fold_case),
    ensures
        a == b || (a == '/' && b == '\\') || (a == '\\' && b == '/') || fold_case && ('A' <= a <= 'Z'
            && b as u32 == a as u32 + 32 || 'A' <= b <= 'Z' && a as u32 == b as u32 + 32),
        folded('\\', fold_case) == folded('/', fold_case),
        !fold_case && a != '\\' ==> folded(a, fold_case) == a,
        fold_case && 'A' <= a <= 'Z' ==> folded(a, fold_case) as u32 == a as u32 + 32,
{
}

/// The order of texts is strict: of two different texts exactly one comes before the other, and
/// none before itself.
pub proof fn law_texts_are_ordered(a: Seq<char>, b: Seq<char>)
    ensures
        precedes(a, b) && precedes(b, a) ==> false,
        a != b ==> precedes(a, b) || precedes(b, a),
        a == b ==> !precedes(a, b),
    decreases a.len(),
{
    if a.len() > 0 && b.len() > 0 && a[0] == b[0] {
        law_texts_are_ordered(a.drop_first(), b.drop_first());
        if a.drop_first() == b.drop_first() {
            assert(a =~= b) by {
                assert forall|i: int| 0 <= i < a.len() implies a[i] == b[i] by {
                    if i > 0 {
                        assert(a[i] == a.drop_first()[i - 1]);
                        assert(b[i] == b.drop_first()[i - 1]);
                    }
                }
                assert(a.len() == b.len());
            }
        }
    } else if a.len() == 0 && b.len() == 0 {
        assert(a =~= b);
    }
}

/// Texts are ordered like the words of a dictionary: where they first differ the smaller character
/// comes first, and a beginning comes before what it begins.
pub proof fn law_texts_are_ordered_by_their_first_difference(a: Seq<char>, b: Seq<char>, n: int)
    requires
        0 <= n <= a.len(),
        n <= b.len(),
        forall|i: int| 0 <= i < n ==> #[trigger] a[i] == b[i],
    ensures
        n < a.len() && n < b.len() && a[n] < b[n] ==> precedes(a, b),
        n == a.len() && n < b.len() ==> precedes(a, b),
        n < a.len() && n == b.len() ==> !precedes(a, b),
    decreases n,
{
    if n > 0 {
        let (p, q) = (a.drop_first(), b.drop_first());
        assert(a[0] == b[0]);
        assert forall|i: int| 0 <= i < n - 1 implies #[trigger] p[i] == q[i] by {
            assert(a[i + 1] == b[i + 1]);
        }
        law_texts_are_ordered_by_their_first_difference(p, q, n - 1);
    }
}

/// A text is blank if it holds spaces alone, and not if it holds a printable ASCII character.
pub proof fn law_blank_texts_hold_no_letters(text: Seq<char>, i: int)
    ensures
        text.len() == 0 ==> is_blank(text),
        0 <= i < text.len() && '!' <= text[i] <= '~' ==> !is_blank(text),
        (forall|j: int| 0 <= j < text.len() ==> #[trigger] text[j] == ' ') ==> is_blank(text),
        0 <= i < text.len() && !is_white_space(text[i]) ==> !is_blank(text),
{
    if 0 <= i < text.len() {
        assert(is_blank(text) ==> is_white_space(text[i]));
    }
}

/// No text stands twice in an ascending list.
pub proof fn law_ascending_texts_differ(list: Seq<Seq<char>>, i: int, j: int)
    requires
        is_ascending(list),
        0 <= i < j < list.len(),
    ensures
        list[i] != list[j],
        precedes(list[i], list[j]),
        !precedes(list[j], list[i]),
{
    law_texts_are_ordered(list[i], list[j]);
    assert(precedes(list[i], list[j]));
}

/// The texts of some strings stand in the order of the strings.
pub proof fn law_texts_stand_in_order(strings: Seq<String>, i: int)
    requires
        0 <= i < strings.len(),
    ensures
        texts(strings).len() == strings.len(),
        texts(strings)[i] == strings[i]@,
{
}

/// The characters that separate words, by their numbers: tab to carriage return, the space, and
/// the wider spaces and line ends of Unicode.
pub proof fn law_spaces_separate_words(c: char)
    ensures
        ({
            let number = c as u32;
            is_white_space(c) <==> (9 <= number <= 13 || number == 32 || number == 0x85 || number
                == 0xa0 || number == 0x1680 || 0x2000 <= number <= 0x200a || number == 0x2028
                || number == 0x2029 || number == 0x202f || number == 0x205f || number == 0x3000)
        }),
{
}

/// A text ends with a suffix and starts with a prefix exactly if it is something before the one
/// and something behind the other.
pub proof fn law_texts_are_made_of_their_ends(text: Seq<char>, part: Seq<char>, rest: Seq<char>)
    ensures
        has_suffix(rest + part, part),
        has_prefix(part + rest, part),
        has_suffix(text, part) ==> text == text.take(text.len() - part.len()) + part,
        has_prefix(text, part) ==> text == part + text.skip(part.len() as int),
{
    assert((rest + part).skip(rest.len() as int) =~= part);
    assert((part + rest).take(part.len() as int) =~= part);
    if has_suffix(text, part) {
        let before = text.len() - part.len();
        assert(text =~= text.take(before) + text.skip(before));
    }
    if has_prefix(text, part) {
        assert(text =~= text.take(part.len() as int) + text.skip(part.len() as int));
    }
}

} // verus!
