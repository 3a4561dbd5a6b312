//! Characters, words and lines: the lexical layer shared by the annotation
//! and the calibration formats.
//!
//! Both formats are plain text. A text is cut into lines at every line feed,
//! and a line into words at every run of white space.

use vstd::prelude::*;

verus! {

/// White space: the code points that carry the Unicode property `White_Space`.
pub open spec fn is_space(c: char) -> bool {
    let n = c as u32;
    ||| 0x09 <= n <= 0x0D
    ||| n == 0x20
    ||| n == 0x85
    ||| n == 0xA0
    ||| n == 0x1680
    ||| 0x2000 <= n <= 0x200A
    ||| n == 0x2028
    ||| n == 0x2029
    ||| n == 0x202F
    ||| n == 0x205F
    ||| n == 0x3000
}

/// The first position at or after `from` that holds no white space, or the
/// length of `s` if there is none.
pub open spec fn word_start(s: Seq<char>, from: int) -> int
    decreases s.len() - from,
{
    if from < 0 || from >= s.len() {
        s.len() as int
    } else if !is_space(s[from]) {
        from
    } else {
        word_start(s, from + 1)
    }
}

/// The first position at or after `from` that holds white space, or the
/// length of `s` if there is none.
pub open spec fn word_end(s: Seq<char>, from: int) -> int
    decreases s.len() - from,
{
    if from < 0 || from >= s.len() {
        s.len() as int
    } else if is_space(s[from]) {
        from
    } else {
        word_end(s, from + 1)
    }
}

/// The words of `s` that begin at or after `from`, as pairs of the position
/// of a word's first character and the position after its last one.
pub open spec fn word_spans(s: Seq<char>, from: int) -> Seq<(int, int)>
    decreases s.len() - from,
    via word_spans_decreases
{
    let a = word_start(s, from);
    if from < 0 || a >= s.len() {
        Seq::empty()
    } else {
        seq![(a, word_end(s, a))] + word_spans(s, word_end(s, a))
    }
}

#[via_fn]
proof fn word_spans_decreases(s: Seq<char>, from: int) {
    if from >= 0 {
        lemma_word_start_bounds(s, from);
        let a = word_start(s, from);
        if a < s.len() {
            lemma_word_end_bounds(s, a);
        }
    }
}

/// The words of `s`: its maximal runs of characters that are not white space,
/// from left to right.
pub open spec fn words(s: Seq<char>) -> Seq<Seq<char>> {
    word_spans(s, 0).map_values(|span: (int, int)| s.subrange(span.0, span.1))
}

/// The first position at or after `from` that holds a line feed, or the
/// length of `s` if there is none.
pub open spec fn line_end(s: Seq<char>, from: int) -> int
    decreases s.len() - from,
{
    if from < 0 || from >= s.len() {
        s.len() as int
    } else if s[from] == '\n' {
        from
    } else {
        line_end(s, from + 1)
    }
}

/// The lines of `s` that begin at or after `from`, as pairs of the position
/// of a line's first character and the position of the line feed that ends
/// it (the length of `s` for a last line without one). Nothing follows the
/// last line feed of a text.
pub open spec fn line_spans(s: Seq<char>, from: int) -> Seq<(int, int)>
    decreases s.len() + 1 - from,
    via line_spans_decreases
{
    if from < 0 || from >= s.len() {
        Seq::empty()
    } else {
        seq![(from, line_end(s, from))] + line_spans(s, line_end(s, from) + 1)
    }
}

#[via_fn]
proof fn line_spans_decreases(s: Seq<char>, from: int) {
    if from >= 0 {
        lemma_line_end_bounds(s, from);
    }
}

/// The lines of `s`, each without its line feed. A carriage return before the
/// line feed stays in the line; it is white space.
pub open spec fn lines(s: Seq<char>) -> Seq<Seq<char>> {
    line_spans(s, 0).map_values(|span: (int, int)| s.subrange(span.0, span.1))
}

/// The text as a table: the words of each of its lines.
pub open spec fn rows(s: Seq<char>) -> Seq<Seq<Seq<char>>> {
    lines(s).map_values(|line: Seq<char>| words(line))
}

/// A stretch of a text: the position of its first character and the position
/// after its last one.
#[derive(Clone, Copy, Debug)]
pub struct Span {
    pub start: usize,
    pub end: usize,
}

impl Span {
    /// The stretch of `text` that the span marks.
    pub open spec fn of(self, text: Seq<char>) -> Seq<char> {
        text.subrange(self.start as int, self.end as int)
    }
}

/// The spans of `v` as pairs of mathematical integers.
pub open spec fn span_pairs(v: Seq<Span>) -> Seq<(int, int)> {
    v.map_values(|span: Span| (span.start as int, span.end as int))
}

/// Whether `c` is white space.
pub fn is_space_char(c: char) -> (r: bool)
    ensures
        r == is_space(c),
{
    let n: u32 = c as u32;
    (0x09 <= n && n <= 0x0D) || n == 0x20 || n == 0x85 || n == 0xA0 || n == 0x1680 || (0x2000 <= n
        && n <= 0x200A) || n == 0x2028 || n == 0x2029 || n == 0x202F || n == 0x205F || n == 0x3000
}

/// The characters of `text`, in order.
pub fn chars_of(text: &str) -> (out: Vec<char>)
    ensures
        out@ == text@,
{
    let mut out: Vec<char> = Vec::new();
    for c in it: text.chars()
        invariant
            out@ == it.seq().take(it.index()),
            it.seq() == text@,
    {
        out.push(c);
    }
    out
}

/// The string made of `chars`.
///
/// Trusted: the body calls `String::from_iter` of the standard library, which
/// collects the characters it is given, in order, into a new string.
#[verifier::external_body]
pub(crate) fn string_of(chars: &[char]) -> (s: String)
    ensures
        s@ == chars@,
{
    String::from_iter(chars.iter())
}

/// The stretch of `text` that `span` marks.
pub fn cut<'a>(text: &'a [char], span: Span) -> (stretch: &'a [char])
    requires
        span.start <= span.end <= text.len(),
    ensures
        stretch@ == span.of(text@),
{
    &text[span.start..span.end]
}

/// Whether two words are the same.
pub fn same_word(a: &[char], b: &[char]) -> (r: bool)
    ensures
        r == (a@ == b@),
{
    if a.len() != b.len() {
        return false;
    }
    let mut i: usize = 0;
    while i < a.len()
        invariant
            i <= a.len() == b.len(),
            a@.take(i as int) == b@.take(i as int),
        decreases a.len() - i,
    {
        if a[i] != b[i] {
            return false;
        }
        assert(a@.take(i + 1) == a@.take(i as int).push(a@[i as int]));
        assert(b@.take(i + 1) == b@.take(i as int).push(b@[i as int]));
        i += 1;
    }
    assert(a@.take(i as int) == a@ && b@.take(i as int) == b@);
    true
}

/// Cuts `line` into its words.
pub fn split_words(line: &[char]) -> (spans: Vec<Span>)
    ensures
        span_pairs(spans@) == word_spans(line@, 0),
        forall|i: int|
            0 <= i < spans.len() ==> (#[trigger] spans[i]).start < spans[i].end <= line.len(),
{
    let len = line.len();
    let mut spans: Vec<Span> = Vec::new();
    let mut pos: usize = 0;
    loop
        invariant
            len == line.len(),
            pos <= len,
            span_pairs(spans@) + word_spans(line@, pos as int) == word_spans(line@, 0),
            forall|i: int|
                0 <= i < spans.len() ==> (#[trigger] spans[i]).start < spans[i].end <= len,
        ensures
            span_pairs(spans@) == word_spans(line@, 0),
            forall|i: int|
                0 <= i < spans.len() ==> (#[trigger] spans[i]).start < spans[i].end <= len,
        decreases len - pos,
    {
        let mut a: usize = pos;
        while a < len && is_space_char(line[a])
            invariant
                len == line.len(),
                pos <= a <= len,
                word_start(line@, a as int) == word_start(line@, pos as int),
            decreases len - a,
        {
            a += 1;
        }
        if a >= len {
            break;
        }
        let mut b: usize = a + 1;
        while b < len && !is_space_char(line[b])
            invariant
                len == line.len(),
                a < b <= len,
                word_end(line@, b as int) == word_end(line@, a as int),
            decreases len - b,
        {
            b += 1;
        }
        proof {
            let ghost before = span_pairs(spans@);
            assert(span_pairs(spans@.push(Span { start: a, end: b })) == before.push(
                (a as int, b as int),
            ));
            assert(before.push((a as int, b as int)) + word_spans(line@, b as int) == before
                + word_spans(line@, pos as int));
        }
        spans.push(Span { start: a, end: b });
        pos = b;
    }
    spans
}

/// Cuts `text` into its lines.
pub fn split_lines(text: &[char]) -> (spans: Vec<Span>)
    ensures
        span_pairs(spans@) == line_spans(text@, 0),
        forall|i: int|
            0 <= i < spans.len() ==> (#[trigger] spans[i]).start <= spans[i].end <= text.len(),
{
    let len = text.len();
    let mut spans: Vec<Span> = Vec::new();
    let mut pos: usize = 0;
    while pos < len
        invariant
            len == text.len(),
            pos <= len,
            span_pairs(spans@) + line_spans(text@, pos as int) == line_spans(text@, 0),
            forall|i: int|
                0 <= i < spans.len() ==> (#[trigger] spans[i]).start <= spans[i].end <= len,
        decreases len - pos,
    {
        let mut e: usize = pos;
        while e < len && text[e] != '\n'
            invariant
                len == text.len(),
                pos <= e <= len,
                line_end(text@, e as int) == line_end(text@, pos as int),
            decreases len - e,
        {
            e += 1;
        }
        proof {
            let ghost before = span_pairs(spans@);
            assert(span_pairs(spans@.push(Span { start: pos, end: e })) == before.push(
                (pos as int, e as int),
            ));
            assert(before.push((pos as int, e as int)) + line_spans(text@, e as int + 1) == before
                + line_spans(text@, pos as int));
        }
        spans.push(Span { start: pos, end: e });
        pos = if e < len {
            e + 1
        } else {
            len
        };
    }
    spans
}

/// `word_start` stays within the text, skips white space only, and stops at a
/// character that is none.
pub proof fn lemma_word_start_bounds(s: Seq<char>, from: int)
    requires
        0 <= from,
    ensures
        from <= word_start(s, from) || word_start(s, from) == s.len(),
        word_start(s, from) <= s.len(),
        word_start(s, from) < s.len() ==> !is_space(s[word_start(s, from)]),
        forall|i: int| from <= i < word_start(s, from) ==> is_space(#[trigger] s[i]),
    decreases s.len() - from,
{
    if from < s.len() && is_space(s[from]) {
        lemma_word_start_bounds(s, from + 1);
    }
}

/// `word_end` stays within the text, passes over no white space, and stops at
/// white space or at the end.
pub proof fn lemma_word_end_bounds(s: Seq<char>, from: int)
    requires
        0 <= from,
    ensures
        from <= word_end(s, from) || word_end(s, from) == s.len(),
        word_end(s, from) <= s.len(),
        word_end(s, from) < s.len() ==> is_space(s[word_end(s, from)]),
        forall|i: int| from <= i < word_end(s, from) ==> !is_space(#[trigger] s[i]),
        from < s.len() && !is_space(s[from]) ==> from < word_end(s, from),
    decreases s.len() - from,
{
    if from < s.len() && !is_space(s[from]) {
        lemma_word_end_bounds(s, from + 1);
    }
}

/// `line_end` stays within the text, passes over no line feed, and stops at
/// one or at the end.
pub proof fn lemma_line_end_bounds(s: Seq<char>, from: int)
    requires
        0 <= from,
    ensures
        from <= line_end(s, from) || line_end(s, from) == s.len(),
        line_end(s, from) <= s.len(),
        line_end(s, from) < s.len() ==> s[line_end(s, from)] == '\n',
        forall|i: int| from <= i < line_end(s, from) ==> #[trigger] s[i] != '\n',
    decreases s.len() - from,
{
    if from < s.len() && s[from] != '\n' {
        lemma_line_end_bounds(s, from + 1);
    }
}

/// The words of a line as `spans` marks them are the words of the line.
pub proof fn lemma_words_of_spans(line: Seq<char>, spans: Seq<Span>)
    requires
        span_pairs(spans) == word_spans(line, 0),
    ensures
        words(line).len() == spans.len(),
        forall|k: int| 0 <= k < spans.len() ==> #[trigger] words(line)[k] == spans[k].of(line),
{
    assert forall|k: int| 0 <= k < spans.len() implies #[trigger] words(line)[k] == spans[k].of(
        line,
    ) by {
        assert(span_pairs(spans)[k] == word_spans(line, 0)[k]);
    }
}

/// Whether `spans` marks the words of `s` at or after `from`: runs that are
/// not empty, hold no white space, have white space or an end on either
/// side, come one after the other, and leave out white space only.
pub open spec fn marks_words(s: Seq<char>, from: int, spans: Seq<(int, int)>) -> bool {
    &&& forall|k: int|
        0 <= k < spans.len() ==> {
            let (a, b) = #[trigger] spans[k];
            &&& from <= a < b <= s.len()
            &&& forall|i: int| a <= i < b ==> !is_space(#[trigger] s[i])
            &&& a == from || is_space(s[a - 1])
            &&& b == s.len() || is_space(s[b])
        }
    &&& forall|j: int, k: int| 0 <= j < k < spans.len() ==> (#[trigger] spans[j]).1 < (#[trigger] spans[k]).0
    &&& forall|i: int| from <= i < s.len() && !is_space(#[trigger] s[i]) ==> covers(spans, i)
}

/// Whether the position `i` lies in one of `spans`.
pub open spec fn covers(spans: Seq<(int, int)>, i: int) -> bool {
    exists|k: int| 0 <= k < spans.len() && (#[trigger] spans[k]).0 <= i < spans[k].1
}

/// Each span of `word_spans` marks a word: it lies in the text, is not empty,
/// holds no white space, and has white space or an end of the text on either
/// side.
pub proof fn lemma_spans_mark_words(s: Seq<char>, from: int, k: int)
    requires
        0 <= from,
        0 <= k < word_spans(s, from).len(),
    ensures
        ({
            let (a, b) = word_spans(s, from)[k];
            &&& from <= a < b <= s.len()
            &&& forall|i: int| a <= i < b ==> !is_space(#[trigger] s[i])
            &&& a == from || is_space(s[a - 1])
            &&& b == s.len() || is_space(s[b])
        }),
    decreases s.len() - from,
{
    lemma_word_start_bounds(s, from);
    let a = word_start(s, from);
    lemma_word_end_bounds(s, a);
    let b = word_end(s, a);
    if k == 0 {
        if a > from {
            assert(is_space(s[a - 1]));
        }
    } else {
        assert(word_spans(s, from)[k] == word_spans(s, b)[k - 1]);
        lemma_spans_mark_words(s, b, k - 1);
        let (a2, b2) = word_spans(s, b)[k - 1];
        assert(a2 > b);
    }
}

/// Of two spans of `word_spans`, the earlier ends before the later begins.
pub proof fn lemma_spans_come_in_order(s: Seq<char>, from: int, j: int, k: int)
    requires
        0 <= from,
        0 <= j < k < word_spans(s, from).len(),
    ensures
        word_spans(s, from)[j].1 < word_spans(s, from)[k].0,
    decreases s.len() - from,
{
    lemma_word_start_bounds(s, from);
    let a = word_start(s, from);
    lemma_word_end_bounds(s, a);
    let b = word_end(s, a);
    assert(word_spans(s, from)[k] == word_spans(s, b)[k - 1]);
    if j == 0 {
        lemma_spans_mark_words(s, b, k - 1);
    } else {
        assert(word_spans(s, from)[j] == word_spans(s, b)[j - 1]);
        lemma_spans_come_in_order(s, b, j - 1, k - 1);
    }
}

/// Every character at or after `from` that is not white space lies in one of
/// the spans of `word_spans`.
pub proof fn lemma_spans_cover_words(s: Seq<char>, from: int, i: int)
    requires
        0 <= from <= i < s.len(),
        !is_space(s[i]),
    ensures
        covers(word_spans(s, from), i),
    decreases s.len() - from,
{
    lemma_word_start_bounds(s, from);
    let a = word_start(s, from);
    assert(a <= i);
    lemma_word_end_bounds(s, a);
    let b = word_end(s, a);
    if i < b {
        assert(word_spans(s, from)[0] == (a, b));
    } else {
        lemma_spans_cover_words(s, b, i);
        let k = choose|k: int|
            0 <= k < word_spans(s, b).len() && (#[trigger] word_spans(s, b)[k]).0 <= i
                < word_spans(s, b)[k].1;
        assert(word_spans(s, from)[k + 1] == word_spans(s, b)[k]);
    }
}

/// The spans of `word_spans` mark the words.
pub proof fn lemma_word_spans_mark_words(s: Seq<char>, from: int)
    requires
        0 <= from,
    ensures
        marks_words(s, from, word_spans(s, from)),
{
    let spans = word_spans(s, from);
    assert forall|k: int| 0 <= k < spans.len() implies {
        let (a, b) = #[trigger] spans[k];
        &&& from <= a < b <= s.len()
        &&& forall|i: int| a <= i < b ==> !is_space(#[trigger] s[i])
        &&& a == from || is_space(s[a - 1])
        &&& b == s.len() || is_space(s[b])
    } by {
        lemma_spans_mark_words(s, from, k);
    }
    assert forall|j: int, k: int| 0 <= j < k < spans.len() implies (#[trigger] spans[j]).1 < (
    #[trigger] spans[k]).0 by {
        lemma_spans_come_in_order(s, from, j, k);
    }
    assert forall|i: int| from <= i < s.len() && !is_space(#[trigger] s[i]) implies covers(
        spans,
        i,
    ) by {
        lemma_spans_cover_words(s, from, i);
    }
}

/// `word_start(s, from)` is `at` if white space only stands between the two
/// and none at `at`.
proof fn lemma_word_start_is(s: Seq<char>, from: int, at: int)
    requires
        0 <= from <= at < s.len(),
        forall|i: int| from <= i < at ==> is_space(#[trigger] s[i]),
        !is_space(s[at]),
    ensures
        word_start(s, from) == at,
    decreases at - from,
{
    if from < at {
        assert(is_space(s[from]));
        lemma_word_start_is(s, from + 1, at);
    }
}

/// `word_end(s, from)` is `at` if no white space stands between the two and
/// white space or nothing at `at`.
proof fn lemma_word_end_is(s: Seq<char>, from: int, at: int)
    requires
        0 <= from <= at <= s.len(),
        forall|i: int| from <= i < at ==> !is_space(#[trigger] s[i]),
        at == s.len() || is_space(s[at]),
    ensures
        word_end(s, from) == at,
    decreases at - from,
{
    if from < at {
        assert(!is_space(s[from]));
        lemma_word_end_is(s, from + 1, at);
    }
}

/// The words of a text are determined: whatever marks them is `word_spans`.
pub proof fn lemma_words_are_determined(s: Seq<char>, from: int, spans: Seq<(int, int)>)
    requires
        0 <= from,
        marks_words(s, from, spans),
    ensures
        spans == word_spans(s, from),
    decreases spans.len(),
{
    lemma_word_start_bounds(s, from);
    let start = word_start(s, from);
    if spans.len() == 0 {
        if start < s.len() {
            assert(covers(spans, start));
        }
    } else {
        let (a, b) = spans[0];
        assert forall|i: int| from <= i < a implies is_space(#[trigger] s[i]) by {
            if !is_space(s[i]) {
                assert(covers(spans, i));
                let k = choose|k: int| 0 <= k < spans.len() && (#[trigger] spans[k]).0 <= i < spans[k].1;
                if k > 0 {
                    assert(spans[0].1 < spans[k].0);
                }
            }
        }
        assert(!is_space(s[a]));
        lemma_word_start_is(s, from, a);
        lemma_word_end_is(s, a, b);
        let rest = spans.skip(1);
        assert forall|k: int| 0 <= k < rest.len() implies {
            let (c, d) = #[trigger] rest[k];
            &&& b <= c < d <= s.len()
            &&& forall|i: int| c <= i < d ==> !is_space(#[trigger] s[i])
            &&& c == b || is_space(s[c - 1])
            &&& d == s.len() || is_space(s[d])
        } by {
            assert(rest[k] == spans[k + 1]);
            assert(spans[0].1 < spans[k + 1].0);
        }
        assert forall|j: int, k: int| 0 <= j < k < rest.len() implies (#[trigger] rest[j]).1 < (
        #[trigger] rest[k]).0 by {
            assert(rest[j] == spans[j + 1] && rest[k] == spans[k + 1]);
        }
        assert forall|i: int| b <= i < s.len() && !is_space(#[trigger] s[i]) implies covers(
            rest,
            i,
        ) by {
            assert(covers(spans, i));
            let k = choose|k: int| 0 <= k < spans.len() && (#[trigger] spans[k]).0 <= i < spans[k].1;
            assert(rest[k - 1] == spans[k]);
        }
        lemma_words_are_determined(s, b, rest);
        assert(spans == seq![(a, b)] + rest);
    }
}

/// A word is not empty and holds no white space.
pub proof fn lemma_words_are_solid(s: Seq<char>, k: int)
    requires
        0 <= k < words(s).len(),
    ensures
        words(s)[k].len() > 0,
        forall|i: int| 0 <= i < words(s)[k].len() ==> !is_space(#[trigger] words(s)[k][i]),
{
    lemma_spans_mark_words(s, 0, k);
    let (a, b) = word_spans(s, 0)[k];
    assert forall|i: int| 0 <= i < words(s)[k].len() implies !is_space(
        #[trigger] words(s)[k][i],
    ) by {
        assert(words(s)[k][i] == s[a + i]);
    }
}

/// Each span of `line_spans` marks a line: it lies in the text, holds no line
/// feed, begins where the text or the span before it does, and ends at a line
/// feed or at the end of the text.
pub proof fn lemma_spans_mark_lines(s: Seq<char>, from: int, k: int)
    requires
        0 <= from,
        0 <= k < line_spans(s, from).len(),
    ensures
        ({
            let (a, b) = line_spans(s, from)[k];
            &&& from <= a <= b <= s.len()
            &&& forall|i: int| a <= i < b ==> #[trigger] s[i] != '\n'
            &&& b == s.len() || s[b] == '\n'
            &&& k == 0 ==> a == from
            &&& k > 0 ==> a == line_spans(s, from)[k - 1].1 + 1
        }),
    decreases s.len() - from,
{
    lemma_line_end_bounds(s, from);
    let e = line_end(s, from);
    if k > 0 {
        assert(line_spans(s, from)[k] == line_spans(s, e + 1)[k - 1]);
        lemma_spans_mark_lines(s, e + 1, k - 1);
        if k > 1 {
            assert(line_spans(s, from)[k - 1] == line_spans(s, e + 1)[k - 2]);
        }
    }
}

/// `line_end(s, from)` is `at` if no line feed stands between the two and a
/// line feed or nothing stands at `at`.
proof fn lemma_line_end_is(s: Seq<char>, from: int, at: int)
    requires
        0 <= from <= at <= s.len(),
        forall|i: int| from <= i < at ==> #[trigger] s[i] != '\n',
        at == s.len() || s[at] == '\n',
    ensures
        line_end(s, from) == at,
    decreases at - from,
{
    if from < at {
        assert(s[from] != '\n');
        lemma_line_end_is(s, from + 1, at);
    }
}

/// `spans`, each moved on by `by` positions.
pub open spec fn moved(spans: Seq<(int, int)>, by: int) -> Seq<(int, int)> {
    spans.map_values(|span: (int, int)| (span.0 + by, span.1 + by))
}

/// The lines of a text that follows another begin and end where they do in
/// the text alone, moved on by the length of the other.
proof fn lemma_line_spans_moved(a: Seq<char>, b: Seq<char>, from: int)
    requires
        0 <= from,
    ensures
        line_spans(a + b, a.len() + from) == moved(line_spans(b, from), a.len() as int),
    decreases b.len() + 1 - from,
{
    let s = a + b;
    if from < b.len() {
        lemma_line_end_bounds(b, from);
        let e = line_end(b, from);
        assert forall|i: int| a.len() + from <= i < a.len() + e implies #[trigger] s[i] != '\n' by {
            assert(s[i] == b[i - a.len()]);
        }
        if e < b.len() {
            assert(s[a.len() + e] == b[e]);
        }
        lemma_line_end_is(s, a.len() + from, a.len() + e);
        lemma_line_spans_moved(a, b, e + 1);
        assert(line_spans(s, a.len() + from) == seq![(a.len() + from, a.len() + e)] + line_spans(
            s,
            a.len() + e + 1,
        ));
        assert(moved(line_spans(b, from), a.len() as int) == seq![(a.len() + from, a.len() + e)]
            + moved(line_spans(b, e + 1), a.len() as int));
    } else {
        assert(line_spans(b, from).len() == 0);
        assert(moved(line_spans(b, from), a.len() as int) == Seq::<(int, int)>::empty());
    }
}

/// Where a text ends with a line feed, its lines begin and end in the same
/// places when another text follows it, and the lines of the other come
/// after them.
proof fn lemma_line_spans_joined(a: Seq<char>, b: Seq<char>, from: int)
    requires
        0 <= from <= a.len(),
        a.len() == 0 || a.last() == '\n',
    ensures
        line_spans(a + b, from) == line_spans(a, from) + moved(line_spans(b, 0), a.len() as int),
    decreases a.len() - from,
{
    let s = a + b;
    if from == a.len() {
        lemma_line_spans_moved(a, b, 0);
        assert(line_spans(a, from).len() == 0);
        assert(line_spans(a, from) + moved(line_spans(b, 0), a.len() as int) == moved(
            line_spans(b, 0),
            a.len() as int,
        ));
    } else {
        lemma_line_end_bounds(a, from);
        let e = line_end(a, from);
        assert(e < a.len()) by {
            if e == a.len() {
                assert(a[a.len() - 1] != '\n');
            }
        }
        assert forall|i: int| from <= i < e implies #[trigger] s[i] != '\n' by {
            assert(s[i] == a[i]);
        }
        assert(s[e] == a[e]);
        lemma_line_end_is(s, from, e);
        lemma_line_spans_joined(a, b, e + 1);
        assert(line_spans(s, from) == seq![(from, e)] + line_spans(s, e + 1));
        assert(line_spans(a, from) == seq![(from, e)] + line_spans(a, e + 1));
        assert(seq![(from, e)] + (line_spans(a, e + 1) + moved(line_spans(b, 0), a.len() as int))
            == (seq![(from, e)] + line_spans(a, e + 1)) + moved(line_spans(b, 0), a.len() as int));
    }
}

/// The lines of a text that ends with a line feed, followed by another text,
/// are the lines of the one and then the lines of the other.
pub proof fn lemma_lines_of_joined_texts(a: Seq<char>, b: Seq<char>)
    requires
        a.len() == 0 || a.last() == '\n',
    ensures
        lines(a + b) == lines(a) + lines(b),
        rows(a + b) == rows(a) + rows(b),
{
    let s = a + b;
    lemma_line_spans_joined(a, b, 0);
    let first = line_spans(a, 0);
    let second = line_spans(b, 0);
    assert(lines(s).len() == first.len() + second.len());
    assert forall|k: int| 0 <= k < lines(s).len() implies #[trigger] lines(s)[k] == (lines(a)
        + lines(b))[k] by {
        if k < first.len() {
            lemma_spans_mark_lines(a, 0, k);
            assert(line_spans(s, 0)[k] == first[k]);
            assert(s.subrange(first[k].0, first[k].1) == a.subrange(first[k].0, first[k].1));
        } else {
            let j = k - first.len();
            lemma_spans_mark_lines(b, 0, j);
            assert(line_spans(s, 0)[k] == moved(second, a.len() as int)[j]);
            assert(s.subrange(second[j].0 + a.len(), second[j].1 + a.len()) == b.subrange(
                second[j].0,
                second[j].1,
            ));
        }
    }
    assert(lines(s) == lines(a) + lines(b));
    assert(rows(s) == rows(a) + rows(b));
}

/// A text without a line feed, followed by one, is one line.
pub proof fn lemma_one_line(line: Seq<char>)
    requires
        forall|i: int| 0 <= i < line.len() ==> #[trigger] line[i] != '\n',
    ensures
        lines(line.push('\n')) == seq![line],
        rows(line.push('\n')) == seq![words(line)],
{
    let s = line.push('\n');
    assert forall|i: int| 0 <= i < line.len() implies #[trigger] s[i] != '\n' by {
        assert(s[i] == line[i]);
    }
    lemma_line_end_is(s, 0, line.len() as int);
    assert(line_spans(s, line.len() as int + 1).len() == 0);
    assert(line_spans(s, 0) == seq![(0int, line.len() as int)]);
    assert(s.subrange(0, line.len() as int) == line);
    assert(lines(s) == seq![line]);
    assert(rows(s) == seq![words(line)]);
}

} // verus!
