//! Characters, words and lines of plain text.

use vstd::prelude::*;
use vstd::slice::slice_subrange;

verus! {

// ---------------------------------------------------------------------------
// White space
// ---------------------------------------------------------------------------

/// The characters with the Unicode property White_Space.
pub open spec fn white_space(c: char) -> bool {
    ||| '\u{9}' <= c <= '\u{d}'
    ||| c == '\u{20}'
    ||| c == '\u{85}'
    ||| c == '\u{a0}'
    ||| c == '\u{1680}'
    ||| '\u{2000}' <= c <= '\u{200a}'
    ||| c == '\u{2028}'
    ||| c == '\u{2029}'
    ||| c == '\u{202f}'
    ||| c == '\u{205f}'
    ||| c == '\u{3000}'
}

/// `s` without the white space at its start.
pub open spec fn trim_start(s: Seq<char>) -> Seq<char>
    decreases s.len(),
{
    if s.len() > 0 && white_space(s[0]) {
        trim_start(s.drop_first())
    } else {
        s
    }
}

/// `s` without the white space at its end.
pub open spec fn trim_end(s: Seq<char>) -> Seq<char>
    decreases s.len(),
{
    if s.len() > 0 && white_space(s.last()) {
        trim_end(s.drop_last())
    } else {
        s
    }
}

/// `s` without the white space at either end.
pub open spec fn trim(s: Seq<char>) -> Seq<char> {
    trim_end(trim_start(s))
}

/// Whether `c` has the Unicode property White_Space.
pub fn is_white_space(c: char) -> (r: bool)
    ensures
        r == white_space(c),
{
    ('\u{9}' <= c && c <= '\u{d}') || c == '\u{20}' || c == '\u{85}' || c == '\u{a0}' || c
        == '\u{1680}' || ('\u{2000}' <= c && c <= '\u{200a}') || c == '\u{2028}' || c == '\u{2029}'
        || c == '\u{202f}' || c == '\u{205f}' || c == '\u{3000}'
}

/// The part of `s` that `trim_start` keeps.
pub(crate) fn trimmed_start<'a>(s: &'a [char]) -> (r: &'a [char])
    ensures
        r@ == trim_start(s@),
{
    let mut i: usize = 0;
    proof {
        assert(s@.skip(0) =~= s@);
    }
    while i < s.len() && is_white_space(s[i])
        invariant
            i <= s@.len(),
            trim_start(s@.skip(i as int)) == trim_start(s@),
        decreases s@.len() - i,
    {
        assert(s@.skip(i as int).drop_first() =~= s@.skip(i + 1));
        i = i + 1;
    }
    assert(s@.skip(i as int) =~= s@.subrange(i as int, s@.len() as int));
    slice_subrange(s, i, s.len())
}

/// The part of `s` that `trim_end` keeps.
pub(crate) fn trimmed_end<'a>(s: &'a [char]) -> (r: &'a [char])
    ensures
        r@ == trim_end(s@),
{
    let mut n: usize = s.len();
    proof {
        assert(s@.take(n as int) =~= s@);
    }
    while n > 0 && is_white_space(s[n - 1])
        invariant
            n <= s@.len(),
            trim_end(s@.take(n as int)) == trim_end(s@),
        decreases n,
    {
        assert(s@.take(n as int).drop_last() =~= s@.take(n - 1));
        n = n - 1;
    }
    assert(s@.take(n as int) =~= s@.subrange(0, n as int));
    slice_subrange(s, 0, n)
}

/// The part of `s` that `trim` keeps.
pub(crate) fn trimmed<'a>(s: &'a [char]) -> (r: &'a [char])
    ensures
        r@ == trim(s@),
{
    trimmed_end(trimmed_start(s))
}

// ---------------------------------------------------------------------------
// Text and characters
// ---------------------------------------------------------------------------

/// `String::push` appends one character to the end of the text.
pub assume_specification[ String::push ](s: &mut String, c: char)
    ensures
        final(s)@ == old(s)@.push(c),
;

/// The characters of `s`, in order.
pub(crate) fn chars_of(s: &str) -> (r: Vec<char>)
    ensures
        r@ == s@,
{
    let mut r: Vec<char> = Vec::new();
    for c in it: s.chars()
        invariant
            it.seq() == s@,
            r@ =~= s@.take(it.index() as int),
    {
        r.push(c);
    }
    assert(s@.take(s@.len() as int) =~= s@);
    r
}

/// Appends `chars` to `out`.
pub(crate) fn push_chars(out: &mut String, chars: &[char])
    ensures
        final(out)@ == old(out)@ + chars@,
{
    let mut i: usize = 0;
    let ghost before = out@;
    while i < chars.len()
        invariant
            i <= chars@.len(),
            out@ =~= before + chars@.take(i as int),
        decreases chars@.len() - i,
    {
        out.push(chars[i]);
        i = i + 1;
    }
    assert(chars@.take(chars@.len() as int) =~= chars@);
}

/// Appends `text` to `out`.
pub(crate) fn push_text(out: &mut String, text: &str)
    ensures
        final(out)@ == old(out)@ + text@,
{
    let chars: Vec<char> = chars_of(text);
    push_chars(out, chars.as_slice());
}

/// The text with the characters `chars`.
pub(crate) fn string_of(chars: &[char]) -> (r: String)
    ensures
        r@ == chars@,
{
    let mut r: String = String::new();
    push_chars(&mut r, chars);
    assert(r@ =~= chars@);
    r
}

/// Whether `a` and `b` are the same text.
pub(crate) fn same_text(a: &[char], b: &[char]) -> (r: bool)
    ensures
        r == (a@ == b@),
{
    if a.len() != b.len() {
        return false;
    }
    let mut i: usize = 0;
    while i < a.len()
        invariant
            a@.len() == b@.len(),
            i <= a@.len(),
            forall|j: int| 0 <= j < i ==> a@[j] == b@[j],
        decreases a@.len() - i,
    {
        if a[i] != b[i] {
            return false;
        }
        i = i + 1;
    }
    assert(a@ =~= b@);
    true
}

/// Whether `s` begins with `prefix`.
pub(crate) fn starts_with(s: &[char], prefix: &[char]) -> (r: bool)
    ensures
        r == prefix@.is_prefix_of(s@),
{
    prefix.len() <= s.len() && same_text(slice_subrange(s, 0, prefix.len()), prefix)
}

/// Whether `s` ends with `suffix`.
pub(crate) fn ends_with(s: &[char], suffix: &[char]) -> (r: bool)
    ensures
        r == suffix@.is_suffix_of(s@),
{
    suffix.len() <= s.len() && same_text(
        slice_subrange(s, s.len() - suffix.len(), s.len()),
        suffix,
    )
}

/// The ASCII lower case form of `c`.
pub open spec fn lower(c: char) -> char {
    if 'A' <= c <= 'Z' {
        (c as u8 + 32) as char
    } else {
        c
    }
}

/// `s` with its ASCII capitals in lower case.
pub open spec fn lowercase(s: Seq<char>) -> Seq<char> {
    s.map_values(|c: char| lower(c))
}

/// The ASCII lower case form of `s`.
pub(crate) fn lowercased(s: &[char]) -> (r: Vec<char>)
    ensures
        r@ == lowercase(s@),
{
    let mut r: Vec<char> = Vec::new();
    let mut i: usize = 0;
    while i < s.len()
        invariant
            i <= s@.len(),
            r@ =~= lowercase(s@.take(i as int)),
        decreases s@.len() - i,
    {
        let c: char = s[i];
        if 'A' <= c && c <= 'Z' {
            r.push((c as u8 + 32) as char);
        } else {
            r.push(c);
        }
        i = i + 1;
    }
    assert(s@.take(s@.len() as int) =~= s@);
    r
}

// ---------------------------------------------------------------------------
// Searching
// ---------------------------------------------------------------------------

/// The place of the first `c` in `s`, or the length of `s` when it holds none.
pub open spec fn char_index(s: Seq<char>, c: char) -> int
    decreases s.len(),
{
    if s.len() == 0 || s[0] == c {
        0
    } else {
        1 + char_index(s.drop_first(), c)
    }
}

/// The place where `pattern` first occurs in `s`.
pub open spec fn first_occurrence(s: Seq<char>, pattern: Seq<char>) -> Option<int>
    decreases s.len(),
{
    if pattern.is_prefix_of(s) {
        Some(0)
    } else if s.len() == 0 {
        None
    } else {
        match first_occurrence(s.drop_first(), pattern) {
            Some(k) => Some(k + 1),
            None => None,
        }
    }
}

/// The place where `pattern` last occurs in `s`.
pub open spec fn last_occurrence(s: Seq<char>, pattern: Seq<char>) -> Option<int>
    decreases s.len(),
{
    if pattern.is_suffix_of(s) {
        Some(s.len() - pattern.len())
    } else if s.len() == 0 {
        None
    } else {
        last_occurrence(s.drop_last(), pattern)
    }
}

/// The place that `char_index` names, told by what stands before it and at it.
pub proof fn lemma_char_index(s: Seq<char>, c: char, k: int)
    requires
        0 <= k <= s.len(),
        forall|j: int| 0 <= j < k ==> s[j] != c,
        k < s.len() ==> s[k] == c,
    ensures
        char_index(s, c) == k,
    decreases s.len(),
{
    if k > 0 {
        lemma_char_index(s.drop_first(), c, k - 1);
    }
}

/// What stands before the place that `char_index` names, and at it.
pub proof fn lemma_char_index_props(s: Seq<char>, c: char)
    ensures
        0 <= char_index(s, c) <= s.len(),
        forall|j: int| 0 <= j < char_index(s, c) ==> s[j] != c,
        char_index(s, c) < s.len() ==> s[char_index(s, c)] == c,
    decreases s.len(),
{
    if s.len() > 0 && s[0] != c {
        let t = s.drop_first();
        lemma_char_index_props(t, c);
        assert forall|j: int| 0 <= j < char_index(s, c) implies s[j] != c by {
            if j > 0 {
                assert(t[j - 1] == s[j]);
            }
        }
    }
}

/// The place of the first `c` in `s`, or the length of `s`.
pub(crate) fn find_char(s: &[char], c: char) -> (r: usize)
    ensures
        r == char_index(s@, c),
        r <= s@.len(),
        r < s@.len() ==> s@[r as int] == c,
{
    let mut i: usize = 0;
    while i < s.len() && s[i] != c
        invariant
            i <= s@.len(),
            forall|j: int| 0 <= j < i ==> s@[j] != c,
        decreases s@.len() - i,
    {
        i = i + 1;
    }
    proof {
        lemma_char_index(s@, c, i as int);
    }
    i
}

/// The place where `pattern` first occurs in `s`.
pub(crate) fn find_first(s: &[char], pattern: &[char]) -> (r: Option<usize>)
    ensures
        match r {
            Some(k) => first_occurrence(s@, pattern@) == Some(k as int) && k + pattern@.len()
                <= s@.len(),
            None => first_occurrence(s@, pattern@) is None,
        },
{
    let mut i: usize = 0;
    assert(s@.skip(0) =~= s@);
    while i <= s.len()
        invariant
            i <= s@.len() + 1,
            i <= s@.len() ==> first_occurrence(s@, pattern@) == (match first_occurrence(
                s@.skip(i as int),
                pattern@,
            ) {
                Some(k) => Some(k + i),
                None => None::<int>,
            }),
            i > s@.len() ==> first_occurrence(s@, pattern@) is None,
        decreases s@.len() + 1 - i,
    {
        let rest = slice_subrange(s, i, s.len());
        assert(rest@ =~= s@.skip(i as int));
        if starts_with(rest, pattern) {
            return Some(i);
        }
        if i == s.len() {
            return None;
        }
        assert(s@.skip(i as int).drop_first() =~= s@.skip(i + 1));
        i = i + 1;
    }
    None
}

/// The place where `pattern` last occurs in `s`.
pub(crate) fn find_last(s: &[char], pattern: &[char]) -> (r: Option<usize>)
    ensures
        match r {
            Some(k) => last_occurrence(s@, pattern@) == Some(k as int) && k + pattern@.len()
                <= s@.len(),
            None => last_occurrence(s@, pattern@) is None,
        },
{
    let mut n: usize = s.len();
    assert(s@.take(n as int) =~= s@);
    loop
        invariant
            n <= s@.len(),
            last_occurrence(s@, pattern@) == last_occurrence(s@.take(n as int), pattern@),
        decreases n,
    {
        let rest = slice_subrange(s, 0, n);
        assert(rest@ =~= s@.take(n as int));
        if ends_with(rest, pattern) {
            return Some(n - pattern.len());
        }
        if n == 0 {
            return None;
        }
        assert(s@.take(n as int).drop_last() =~= s@.take(n - 1));
        n = n - 1;
    }
}

// ---------------------------------------------------------------------------
// Lines, pieces and words
// ---------------------------------------------------------------------------

/// `line` without one carriage return at its end.
pub open spec fn strip_return(line: Seq<char>) -> Seq<char> {
    if line.len() > 0 && line.last() == '\r' {
        line.drop_last()
    } else {
        line
    }
}

/// The lines of `s`: each ends at a line feed, and the line feed with a carriage
/// return just before it is not part of the line. What follows the last line feed
/// is a line too, unless it is empty.
pub open spec fn lines(s: Seq<char>) -> Seq<Seq<char>>
    decreases s.len(),
    via lines_decreases
{
    let k = char_index(s, '\n');
    if s.len() == 0 {
        seq![]
    } else if k == s.len() {
        seq![s]
    } else {
        seq![strip_return(s.take(k))] + lines(s.skip(k + 1))
    }
}

#[via_fn]
proof fn lines_decreases(s: Seq<char>) {
    lemma_char_index_props(s, '\n');
}

/// The pieces of `s` between the separators `separator`.
pub open spec fn split(s: Seq<char>, separator: char) -> Seq<Seq<char>>
    decreases s.len(),
    via split_decreases
{
    let k = char_index(s, separator);
    if k == s.len() {
        seq![s]
    } else {
        seq![s.take(k)] + split(s.skip(k + 1), separator)
    }
}

#[via_fn]
proof fn split_decreases(s: Seq<char>, separator: char) {
    lemma_char_index_props(s, separator);
}

/// The longest start of `s` that holds no white space.
pub open spec fn first_run(s: Seq<char>) -> Seq<char>
    decreases s.len(),
{
    if s.len() == 0 || white_space(s[0]) {
        seq![]
    } else {
        seq![s[0]] + first_run(s.drop_first())
    }
}

/// The words of `s`: its longest runs without white space.
pub open spec fn words(s: Seq<char>) -> Seq<Seq<char>>
    decreases s.len(),
    via words_decreases
{
    let t = trim_start(s);
    if t.len() == 0 {
        seq![]
    } else {
        seq![first_run(t)] + words(t.skip(first_run(t).len() as int))
    }
}

#[via_fn]
proof fn words_decreases(s: Seq<char>) {
    lemma_trim_start_shorter(s);
    lemma_first_run_prefix(trim_start(s));
}

proof fn lemma_trim_start_shorter(s: Seq<char>)
    ensures
        trim_start(s).len() <= s.len(),
        trim_start(s).len() > 0 ==> !white_space(trim_start(s)[0]),
    decreases s.len(),
{
    if s.len() > 0 && white_space(s[0]) {
        lemma_trim_start_shorter(s.drop_first());
    }
}

proof fn lemma_first_run_prefix(s: Seq<char>)
    ensures
        first_run(s).len() <= s.len(),
        first_run(s) == s.take(first_run(s).len() as int),
        s.len() > 0 && !white_space(s[0]) ==> first_run(s).len() > 0,
    decreases s.len(),
{
    if s.len() == 0 || white_space(s[0]) {
        assert(s.take(0) =~= seq![]);
    } else {
        let t = s.drop_first();
        lemma_first_run_prefix(t);
        assert(first_run(s) =~= s.take(first_run(s).len() as int));
    }
}

/// The lines of `s`.
pub(crate) fn split_lines<'a>(s: &'a [char]) -> (r: Vec<&'a [char]>)
    ensures
        r@.len() == lines(s@).len(),
        forall|i: int| 0 <= i < r@.len() ==> (#[trigger] r@[i])@ == lines(s@)[i],
{
    let mut r: Vec<&'a [char]> = Vec::new();
    let mut rest: &'a [char] = s;
    let ghost whole = lines(s@);
    while rest.len() > 0
        invariant
            whole == lines(s@),
            whole.len() == r@.len() + lines(rest@).len(),
            forall|i: int| 0 <= i < r@.len() ==> (#[trigger] r@[i])@ == whole[i],
            forall|i: int|
                r@.len() <= i < whole.len() ==> #[trigger] whole[i] == lines(rest@)[i
                    - r@.len()],
        decreases rest@.len(),
    {
        let k: usize = find_char(rest, '\n');
        let ghost tail = lines(rest@);
        let ghost done = r@.len() as int;
        assert(whole[done] == tail[0]);
        if k == rest.len() {
            r.push(rest);
            let all: usize = rest.len();
            rest = slice_subrange(rest, all, all);
            assert(lines(rest@).len() == 0);
        } else {
            let mut line: &'a [char] = slice_subrange(rest, 0, k);
            assert(line@ =~= rest@.take(k as int));
            if line.len() > 0 && line[line.len() - 1] == '\r' {
                let shorter: &'a [char] = slice_subrange(line, 0, line.len() - 1);
                assert(shorter@ =~= line@.drop_last());
                line = shorter;
            }
            r.push(line);
            let next: &'a [char] = slice_subrange(rest, k + 1, rest.len());
            assert(next@ =~= rest@.skip(k + 1));
            assert forall|i: int| r@.len() <= i < whole.len() implies #[trigger] whole[i] == lines(
                next@,
            )[i - r@.len()] by {
                assert(whole[i] == tail[i - done]);
            }
            rest = next;
        }
    }
    r
}

/// The pieces of `s` between the separators `separator`.
pub(crate) fn split_at<'a>(s: &'a [char], separator: char) -> (r: Vec<&'a [char]>)
    ensures
        r@.len() == split(s@, separator).len(),
        r@.len() > 0,
        forall|i: int| 0 <= i < r@.len() ==> (#[trigger] r@[i])@ == split(s@, separator)[i],
{
    let mut r: Vec<&'a [char]> = Vec::new();
    let mut rest: &'a [char] = s;
    let ghost whole = split(s@, separator);
    loop
        invariant
            whole == split(s@, separator),
            whole.len() == r@.len() + split(rest@, separator).len(),
            forall|i: int| 0 <= i < r@.len() ==> (#[trigger] r@[i])@ == whole[i],
            forall|i: int|
                r@.len() <= i < whole.len() ==> #[trigger] whole[i] == split(rest@, separator)[i
                    - r@.len()],
        decreases rest@.len(),
    {
        let k: usize = find_char(rest, separator);
        let ghost tail = split(rest@, separator);
        let ghost done = r@.len() as int;
        assert(whole[done] == tail[0]);
        if k == rest.len() {
            r.push(rest);
            return r;
        }
        let piece: &'a [char] = slice_subrange(rest, 0, k);
        assert(piece@ =~= rest@.take(k as int));
        r.push(piece);
        let next: &'a [char] = slice_subrange(rest, k + 1, rest.len());
        assert(next@ =~= rest@.skip(k + 1));
        assert forall|i: int| r@.len() <= i < whole.len() implies #[trigger] whole[i] == split(
            next@,
            separator,
        )[i - r@.len()] by {
            assert(whole[i] == tail[i - done]);
        }
        rest = next;
    }
}

/// The first word of `s` and what follows it, if `s` holds a word.
pub(crate) fn next_word<'a>(s: &'a [char]) -> (r: Option<(&'a [char], &'a [char])>)
    ensures
        match r {
            Some((word, rest)) => words(s@) == seq![word@] + words(rest@),
            None => words(s@).len() == 0,
        },
{
    let t: &'a [char] = trimmed_start(s);
    if t.len() == 0 {
        return None;
    }
    let mut n: usize = 0;
    assert(t@.skip(0) =~= t@);
    assert(t@.take(0) =~= seq![]);
    while n < t.len() && !is_white_space(t[n])
        invariant
            n <= t@.len(),
            first_run(t@) =~= t@.take(n as int) + first_run(t@.skip(n as int)),
        decreases t@.len() - n,
    {
        assert(t@.skip(n as int).drop_first() =~= t@.skip(n + 1));
        n = n + 1;
    }
    assert(first_run(t@) =~= t@.take(n as int));
    let word: &'a [char] = slice_subrange(t, 0, n);
    let rest: &'a [char] = slice_subrange(t, n, t.len());
    assert(word@ =~= t@.take(n as int));
    assert(rest@ =~= t@.skip(n as int));
    Some((word, rest))
}

// ---------------------------------------------------------------------------
// Laws
// ---------------------------------------------------------------------------

/// Whether `s` holds nothing but white space.
pub open spec fn blank(s: Seq<char>) -> bool {
    forall|i: int| 0 <= i < s.len() ==> white_space(#[trigger] s[i])
}

/// Whether `s` holds no white space.
pub open spec fn solid(s: Seq<char>) -> bool {
    forall|i: int| 0 <= i < s.len() ==> !white_space(#[trigger] s[i])
}

/// Whether `s` holds no `c`.
pub open spec fn lacks(s: Seq<char>, c: char) -> bool {
    forall|i: int| 0 <= i < s.len() ==> #[trigger] s[i] != c
}

/// Whether `pattern` stands in `s` at the place `j`.
pub open spec fn occurs_at(s: Seq<char>, pattern: Seq<char>, j: int) -> bool {
    0 <= j <= s.len() - pattern.len() && s.subrange(j, j + pattern.len()) == pattern
}

proof fn lemma_trim_start_skips(s: Seq<char>, n: int)
    requires
        0 <= n <= s.len(),
        forall|i: int| 0 <= i < n ==> white_space(#[trigger] s[i]),
        n < s.len() ==> !white_space(s[n]),
    ensures
        trim_start(s) == s.skip(n),
    decreases n,
{
    if n > 0 {
        let rest = s.drop_first();
        assert(white_space(s[0]));
        assert forall|i: int| 0 <= i < n - 1 implies white_space(#[trigger] rest[i]) by {
            assert(rest[i] == s[i + 1]);
        }
        lemma_trim_start_skips(rest, n - 1);
        assert(rest.skip(n - 1) =~= s.skip(n));
    } else {
        assert(s.skip(0) =~= s);
    }
}

proof fn lemma_trim_end_takes(s: Seq<char>, n: int)
    requires
        0 <= n <= s.len(),
        forall|i: int| n <= i < s.len() ==> white_space(#[trigger] s[i]),
        n > 0 ==> !white_space(s[n - 1]),
    ensures
        trim_end(s) == s.take(n),
    decreases s.len(),
{
    if n < s.len() {
        assert(white_space(s[s.len() - 1]));
        lemma_trim_end_takes(s.drop_last(), n);
        assert(s.drop_last().take(n) =~= s.take(n));
    } else {
        assert(s.take(n) =~= s);
    }
}

/// Trimming removes the white space around a text, and nothing else.
pub proof fn trimming_removes_the_white_space_around(
    before: Seq<char>,
    kept: Seq<char>,
    after: Seq<char>,
)
    requires
        blank(before),
        blank(after),
        kept.len() > 0 ==> !white_space(kept[0]) && !white_space(kept.last()),
    ensures
        trim(before + kept + after) == kept,
        kept.len() > 0 ==> trim_start(before + kept + after) == kept + after,
        kept.len() > 0 ==> trim_end(before + kept + after) == before + kept,
        kept.len() == 0 ==> trim_start(before + kept + after).len() == 0,
        kept.len() == 0 ==> trim_end(before + kept + after).len() == 0,
{
    let s = before + kept + after;
    let a = before.len() as int;
    let b = a + kept.len();
    assert forall|i: int| 0 <= i < a implies white_space(#[trigger] s[i]) by {
        assert(s[i] == before[i]);
    }
    assert forall|i: int| b <= i < s.len() implies white_space(#[trigger] s[i]) by {
        assert(s[i] == after[i - b]);
    }
    if kept.len() > 0 {
        assert(s[a] == kept[0]);
        assert(s[b - 1] == kept.last());
        lemma_trim_start_skips(s, a);
        lemma_trim_end_takes(s, b);
        assert(s.skip(a) =~= kept + after);
        assert(s.take(b) =~= before + kept);
        let t = kept + after;
        let n = kept.len() as int;
        assert forall|i: int| n <= i < t.len() implies white_space(#[trigger] t[i]) by {
            assert(t[i] == after[i - n]);
        }
        assert(t[n - 1] == kept.last());
        lemma_trim_end_takes(t, n);
        assert(t.take(n) =~= kept);
    } else {
        assert forall|i: int| 0 <= i < s.len() implies white_space(#[trigger] s[i]) by {
            if i >= a {
                assert(s[i] == after[i - b]);
            }
        }
        lemma_trim_start_skips(s, s.len() as int);
        lemma_trim_end_takes(s, 0);
        assert(s.skip(s.len() as int) =~= seq![]);
        assert(s.take(0) =~= seq![]);
        lemma_trim_end_takes(seq![], 0);
        assert(trim_end(seq![]) =~= seq![]);
    }
}

/// Lower case moves each ASCII capital by 32 places, and leaves every other character.
pub proof fn lowercase_moves_only_capitals(s: Seq<char>, i: int)
    requires
        0 <= i < s.len(),
    ensures
        lowercase(s).len() == s.len(),
        65 <= s[i] as int <= 90 ==> lowercase(s)[i] as int == s[i] as int + 32,
        !(65 <= s[i] as int <= 90) ==> lowercase(s)[i] == s[i],
{
    lemma_lower_is(s[i]);
}

proof fn lemma_lower_is(c: char)
    ensures
        65 <= c as int <= 90 ==> lower(c) as int == c as int + 32,
        !(65 <= c as int <= 90) ==> lower(c) == c,
{
}

/// A line ends at its line feed, or where the text ends; one carriage return in front of
/// the line feed is dropped with it.
pub proof fn lines_end_at_line_feeds(line: Seq<char>, rest: Seq<char>)
    requires
        lacks(line, '\n'),
    ensures
        !(line.len() > 0 && line.last() == '\r') ==> lines(line + seq!['\n'] + rest) == seq![line]
            + lines(rest),
        lines(line + seq!['\r', '\n'] + rest) == seq![line] + lines(rest),
        line.len() > 0 ==> lines(line) == seq![line],
        lines(seq![]) == Seq::<Seq<char>>::empty(),
{
    let n = line.len() as int;
    let plain = line + seq!['\n'] + rest;
    lemma_char_index(line, '\n', n);
    assert(plain[n] == '\n');
    assert forall|j: int| 0 <= j < n implies plain[j] != '\n' by {
        assert(plain[j] == line[j]);
    }
    lemma_char_index(plain, '\n', n);
    assert(plain.take(n) =~= line);
    assert(plain.skip(n + 1) =~= rest);
    let ended = line + seq!['\r', '\n'] + rest;
    assert(ended[n + 1] == '\n');
    assert(ended[n] == '\r');
    assert forall|j: int| 0 <= j < n + 1 implies ended[j] != '\n' by {
        if j < n {
            assert(ended[j] == line[j]);
        }
    }
    lemma_char_index(ended, '\n', n + 1);
    assert(ended.take(n + 1) =~= line.push('\r'));
    assert(line.push('\r').drop_last() =~= line);
    assert(ended.skip(n + 2) =~= rest);
}

/// A piece ends at the separator, or where the text ends.
pub proof fn pieces_end_at_separators(piece: Seq<char>, separator: char, rest: Seq<char>)
    requires
        lacks(piece, separator),
    ensures
        split(piece, separator) == seq![piece],
        split(piece + seq![separator] + rest, separator) == seq![piece] + split(rest, separator),
{
    let n = piece.len() as int;
    let s = piece + seq![separator] + rest;
    lemma_char_index(piece, separator, n);
    assert forall|j: int| 0 <= j < n implies s[j] != separator by {
        assert(s[j] == piece[j]);
    }
    assert(s[n] == separator);
    lemma_char_index(s, separator, n);
    assert(s.take(n) =~= piece);
    assert(s.skip(n + 1) =~= rest);
}

/// A word is what stands between white space.
pub proof fn words_stand_between_white_space(
    before: Seq<char>,
    word: Seq<char>,
    rest: Seq<char>,
)
    requires
        blank(before),
        solid(word),
        word.len() > 0,
        rest.len() > 0 ==> white_space(rest[0]),
    ensures
        words(before) == Seq::<Seq<char>>::empty(),
        words(before + word + rest) == seq![word] + words(rest),
{
    let s = before + word + rest;
    let a = before.len() as int;
    let n = word.len() as int;
    lemma_trim_start_skips(before, a);
    assert forall|i: int| 0 <= i < a implies white_space(#[trigger] s[i]) by {
        assert(s[i] == before[i]);
    }
    assert(s[a] == word[0]);
    lemma_trim_start_skips(s, a);
    let t = word + rest;
    assert(s.skip(a) =~= t);
    lemma_first_run_of(word, rest);
    assert(t.skip(n) =~= rest);
}

proof fn lemma_first_run_of(word: Seq<char>, rest: Seq<char>)
    requires
        solid(word),
        rest.len() > 0 ==> white_space(rest[0]),
    ensures
        first_run(word + rest) == word,
    decreases word.len(),
{
    if word.len() == 0 {
        assert(word + rest =~= rest);
    } else {
        let others = word.drop_first();
        assert(!white_space(word[0]));
        assert forall|i: int| 0 <= i < others.len() implies !white_space(#[trigger] others[i]) by {
            assert(others[i] == word[i + 1]);
        }
        lemma_first_run_of(others, rest);
        assert((word + rest).drop_first() =~= others + rest);
        assert(seq![word[0]] + others =~= word);
    }
}

/// What is found first stands there, and nowhere before; and what is not found stands
/// nowhere.
pub proof fn first_occurrence_is_the_first(s: Seq<char>, pattern: Seq<char>)
    ensures
        match first_occurrence(s, pattern) {
            Some(k) => occurs_at(s, pattern, k) && forall|j: int|
                j < k ==> !#[trigger] occurs_at(s, pattern, j),
            None => forall|j: int| !#[trigger] occurs_at(s, pattern, j),
        },
    decreases s.len(),
{
    let m = pattern.len() as int;
    if pattern.is_prefix_of(s) {
        assert(s.subrange(0, m) =~= pattern);
        assert(occurs_at(s, pattern, 0));
    } else {
        assert(!occurs_at(s, pattern, 0)) by {
            if occurs_at(s, pattern, 0) {
                assert(pattern =~= s.subrange(0, m));
            }
        }
        if s.len() > 0 {
            let t = s.drop_first();
            first_occurrence_is_the_first(t, pattern);
            assert forall|j: int| j > 0 implies #[trigger] occurs_at(s, pattern, j) == occurs_at(
                t,
                pattern,
                j - 1,
            ) by {
                if 0 <= j - 1 <= t.len() - m {
                    assert(s.subrange(j, j + m) =~= t.subrange(j - 1, j - 1 + m));
                }
            }
        }
    }
}

/// What is found last stands there, and nowhere behind; and what is not found stands
/// nowhere.
pub proof fn last_occurrence_is_the_last(s: Seq<char>, pattern: Seq<char>)
    ensures
        match last_occurrence(s, pattern) {
            Some(k) => occurs_at(s, pattern, k) && forall|j: int|
                j > k ==> !#[trigger] occurs_at(s, pattern, j),
            None => forall|j: int| !#[trigger] occurs_at(s, pattern, j),
        },
    decreases s.len(),
{
    let m = pattern.len() as int;
    let n = s.len() as int;
    if pattern.is_suffix_of(s) {
        assert(s.subrange(n - m, n) =~= pattern);
        assert(occurs_at(s, pattern, n - m));
    } else {
        assert(!occurs_at(s, pattern, n - m)) by {
            if occurs_at(s, pattern, n - m) {
                assert(pattern =~= s.subrange(n - m, n));
            }
        }
        if n > 0 {
            let t = s.drop_last();
            last_occurrence_is_the_last(t, pattern);
            assert forall|j: int| j != n - m implies #[trigger] occurs_at(s, pattern, j)
                == occurs_at(t, pattern, j) by {
                if 0 <= j <= t.len() - m {
                    assert(s.subrange(j, j + m) =~= t.subrange(j, j + m));
                }
            }
        }
    }
}

/// Where the white space at the end of a text begins.
pub proof fn text_ends_in_white_space(s: Seq<char>) -> (r: (Seq<char>, Seq<char>))
    ensures
        s == r.0 + r.1,
        blank(r.1),
        r.0.len() > 0 ==> !white_space(r.0.last()),
    decreases s.len(),
{
    if s.len() > 0 && white_space(s.last()) {
        let (kept, tail) = text_ends_in_white_space(s.drop_last());
        let longer = tail.push(s.last());
        assert(s =~= s.drop_last().push(s.last()));
        assert(s =~= kept + longer);
        (kept, longer)
    } else {
        assert(s =~= s + seq![]);
        (s, seq![])
    }
}

/// Where the white space at the start of a text ends.
pub proof fn text_begins_with_white_space(s: Seq<char>) -> (r: (Seq<char>, Seq<char>))
    ensures
        s == r.0 + r.1,
        blank(r.0),
        r.1.len() > 0 ==> !white_space(r.1[0]),
    decreases s.len(),
{
    if s.len() > 0 && white_space(s[0]) {
        let (lead, kept) = text_begins_with_white_space(s.drop_first());
        let longer = seq![s[0]] + lead;
        assert(s =~= seq![s[0]] + s.drop_first());
        assert(s =~= longer + kept);
        (longer, kept)
    } else {
        assert(s =~= seq![] + s);
        (seq![], s)
    }
}

/// Nothing is left of a text when it is trimmed if it holds nothing but white space, and
/// only then.
pub proof fn trimmed_text_is_empty_only_where_it_is_blank(s: Seq<char>)
    ensures
        trim(s).len() == 0 <==> blank(s),
{
    let (lead, rest) = text_begins_with_white_space(s);
    let (kept, tail) = text_ends_in_white_space(rest);
    assert(s =~= lead + kept + tail);
    if kept.len() > 0 {
        assert(kept[0] == rest[0]);
        assert(s[lead.len() as int] == kept[0]);
    } else {
        assert forall|i: int| 0 <= i < s.len() implies white_space(#[trigger] s[i]) by {
            if i < lead.len() {
                assert(s[i] == lead[i]);
            } else {
                assert(s[i] == tail[i - lead.len()]);
            }
        }
    }
    trimming_removes_the_white_space_around(lead, kept, tail);
}

} // verus!
