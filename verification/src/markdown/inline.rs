//! The inline syntax of Markdown: emphasis, links, images, code spans, raw
//! HTML and line breaks in a run of text.

use vstd::prelude::*;
use crate::markdown::chars::{
    count_repeat, count_trail, gap, is_gap, is_letter, is_mark, is_word, lemma_repeat_len_bound,
    letter, mark, repeat_len, trail_len, without_trail, word,
};
use crate::model::{Inline, inline_views, InlineView};
use crate::text::{append_range, copy_range, string_of};

verus! {

/// How deep inlines may be nested in a text that is read. What is nested
/// deeper is taken as plain text.
pub const MAX_INLINE_DEPTH: usize = 32;

/// Whether a run of `k` times `c` at index `i` can open emphasis: what
/// follows it is no white space, and an underscore does not stand inside
/// a word.
pub open spec fn opener_at(s: Seq<char>, i: int, c: char, k: int) -> bool {
    &&& 0 <= i
    &&& i + k < s.len()
    &&& repeat_len(s, i, c) == k
    &&& !is_gap(s[i + k])
    &&& (c == '_' ==> (i == 0 || !is_word(s[i - 1])))
}

/// Whether a run of `k` times `c` that begins at index `j` can close
/// emphasis: the run is exactly that long, what stands before it is no
/// white space, and an underscore does not stand inside a word.
pub open spec fn closer_at(s: Seq<char>, j: int, c: char, k: int) -> bool {
    &&& 1 <= j
    &&& j + k <= s.len()
    &&& repeat_len(s, j, c) == k
    &&& !is_gap(s[j - 1])
    &&& (c == '_' ==> (j + k == s.len() || !is_word(s[j + k])))
}

/// The index of the first run at or behind `j` that can close emphasis, or
/// -1. A character behind a backslash is passed over.
pub open spec fn find_closer(s: Seq<char>, j: int, c: char, k: int) -> int
    decreases s.len() - j,
{
    if j < 0 || j >= s.len() {
        -1
    } else if s[j] == '\\' {
        if j + 2 <= s.len() {
            find_closer(s, j + 2, c, k)
        } else {
            -1
        }
    } else if closer_at(s, j, c, k) {
        j
    } else if s[j] == c {
        proof {
            lemma_repeat_len_bound(s, j, c);
        }
        find_closer(s, j + repeat_len(s, j, c), c, k)
    } else {
        find_closer(s, j + 1, c, k)
    }
}

/// The index of the first run of exactly `k` backticks at or behind `j`,
/// or -1.
pub open spec fn find_ticks(s: Seq<char>, j: int, k: int) -> int
    decreases s.len() - j,
{
    if j < 0 || j >= s.len() {
        -1
    } else if s[j] == '`' {
        if repeat_len(s, j, '`') == k {
            j
        } else {
            proof {
                lemma_repeat_len_bound(s, j, '`');
            }
            find_ticks(s, j + repeat_len(s, j, '`'), k)
        }
    } else {
        find_ticks(s, j + 1, k)
    }
}

/// The index of the bracket that closes the one before `j`, or -1.
/// `open` counts the brackets that were opened since. A character behind a
/// backslash is passed over.
pub open spec fn bracket_end(s: Seq<char>, j: int, open: nat) -> int
    decreases s.len() - j,
{
    if j < 0 || j >= s.len() {
        -1
    } else if s[j] == '\\' {
        if j + 2 <= s.len() {
            bracket_end(s, j + 2, open)
        } else {
            -1
        }
    } else if s[j] == '[' {
        bracket_end(s, j + 1, open + 1)
    } else if s[j] == ']' {
        if open == 0 {
            j
        } else {
            bracket_end(s, j + 1, (open - 1) as nat)
        }
    } else {
        bracket_end(s, j + 1, open)
    }
}

/// The index at which the destination of a link that begins at `j` ends:
/// at a space, a line feed, a closing parenthesis, or the end of the text.
pub open spec fn destination_end(s: Seq<char>, j: int) -> int
    decreases s.len() - j,
{
    if j < 0 || j >= s.len() {
        s.len() as int
    } else if s[j] == '\\' && j + 1 < s.len() {
        destination_end(s, j + 2)
    } else if s[j] == ' ' || s[j] == '\n' || s[j] == ')' {
        j
    } else {
        destination_end(s, j + 1)
    }
}

/// The index of the first quotation mark at or behind `j` that no
/// backslash stands before, or -1.
pub open spec fn quote_end(s: Seq<char>, j: int) -> int
    decreases s.len() - j,
{
    if j < 0 || j >= s.len() {
        -1
    } else if s[j] == '\\' {
        if j + 2 <= s.len() {
            quote_end(s, j + 2)
        } else {
            -1
        }
    } else if s[j] == '"' {
        j
    } else {
        quote_end(s, j + 1)
    }
}

/// The index of the `>` that closes a tag, searched from `j`, or -1 where
/// a `<` or the end of the text comes first.
pub open spec fn tag_end(s: Seq<char>, j: int) -> int
    decreases s.len() - j,
{
    if j < 0 || j >= s.len() {
        -1
    } else if s[j] == '>' {
        j
    } else if s[j] == '<' {
        -1
    } else {
        tag_end(s, j + 1)
    }
}

/// `s` with each backslash taken out that stands before a punctuation
/// mark.
pub open spec fn unbackslash(s: Seq<char>) -> Seq<char>
    decreases s.len(),
{
    if s.len() == 0 {
        Seq::empty()
    } else if s[0] == '\\' && s.len() > 1 && is_mark(s[1]) {
        seq![s[1]] + unbackslash(s.skip(2))
    } else {
        seq![s[0]] + unbackslash(s.skip(1))
    }
}

/// `s` with a space in the place of each line feed.
pub open spec fn one_line(s: Seq<char>) -> Seq<char> {
    Seq::new(s.len(), |i: int| if s[i] == '\n' { ' ' } else { s[i] })
}

/// The text of a code span: line feeds become spaces, and one space is
/// taken off each end where both ends have one and the text is not made
/// of spaces only.
pub open spec fn code_text(s: Seq<char>) -> Seq<char> {
    let t = one_line(s);
    if t.len() >= 2 && t[0] == ' ' && t.last() == ' ' && trail_len(t, ' ') < t.len() {
        t.subrange(1, t.len() - 1)
    } else {
        t
    }
}

/// The destination and the title of a link, and the index behind the
/// closing parenthesis, read from index `j` behind the opening one.
pub open spec fn link_tail(s: Seq<char>, j: int) -> Option<(Seq<char>, Seq<char>, int)> {
    let d = destination_end(s, j);
    if !(0 <= j <= d) {
        None
    } else if d < s.len() && s[d] == ')' {
        Some((unbackslash(s.subrange(j, d)), Seq::empty(), d + 1))
    } else if d + 1 < s.len() && s[d] == ' ' && s[d + 1] == '"' {
        let t = quote_end(s, d + 2);
        if d + 2 <= t && t + 1 < s.len() && s[t + 1] == ')' {
            Some((unbackslash(s.subrange(j, d)), unbackslash(s.subrange(d + 2, t)), t + 2))
        } else {
            None
        }
    } else {
        None
    }
}

/// The kinds of inline that hold inlines.
#[derive(Clone, Copy, Debug, PartialEq, Eq, Structural)]
pub enum SpanKind {
    Emphasis,
    Strong,
    StrongEmphasis,
    Strikethrough,
    Link,
}

/// An inline that holds inlines, as it is found in a text: its kind, the
/// range of what it holds, its length, and for a link the destination and
/// the title.
pub ghost struct SpanView {
    pub kind: SpanKind,
    pub from: int,
    pub to: int,
    pub length: int,
    pub destination: Seq<char>,
    pub title: Seq<char>,
}

/// The emphasis that begins at index `i` with a run of `c`.
pub open spec fn emphasis_at(s: Seq<char>, i: int, c: char) -> Option<SpanView> {
    let k = repeat_len(s, i, c) as int;
    if 1 <= k <= 3 && opener_at(s, i, c, k) {
        let close = find_closer(s, i + k, c, k);
        if close > i + k {
            Some(
                SpanView {
                    kind: if k == 1 {
                        SpanKind::Emphasis
                    } else if k == 2 {
                        SpanKind::Strong
                    } else {
                        SpanKind::StrongEmphasis
                    },
                    from: i + k,
                    to: close,
                    length: close + k - i,
                    destination: Seq::empty(),
                    title: Seq::empty(),
                },
            )
        } else {
            None
        }
    } else {
        None
    }
}

/// The struck-out text that begins at index `i` with `~~`.
pub open spec fn strike_at(s: Seq<char>, i: int) -> Option<SpanView> {
    if opener_at(s, i, '~', 2) {
        let close = find_closer(s, i + 2, '~', 2);
        if close > i + 2 {
            Some(
                SpanView {
                    kind: SpanKind::Strikethrough,
                    from: i + 2,
                    to: close,
                    length: close + 2 - i,
                    destination: Seq::empty(),
                    title: Seq::empty(),
                },
            )
        } else {
            None
        }
    } else {
        None
    }
}

/// The link that begins at index `i` with `[`.
pub open spec fn link_at(s: Seq<char>, i: int) -> Option<SpanView> {
    let close = bracket_end(s, i + 1, 0);
    if i + 1 <= close && close + 1 < s.len() && s[close + 1] == '(' {
        match link_tail(s, close + 2) {
            Some((destination, title, end)) => if end > close + 2 && end <= s.len() {
                Some(
                    SpanView {
                        kind: SpanKind::Link,
                        from: i + 1,
                        to: close,
                        length: end - i,
                        destination,
                        title,
                    },
                )
            } else {
                None
            },
            None => None,
        }
    } else {
        None
    }
}

/// The inline that holds inlines and begins at index `i`, if one does.
pub open spec fn span_at(s: Seq<char>, i: int) -> Option<SpanView> {
    if !(0 <= i < s.len()) {
        None
    } else if s[i] == '*' || s[i] == '_' {
        emphasis_at(s, i, s[i])
    } else if s[i] == '~' {
        strike_at(s, i)
    } else if s[i] == '[' {
        link_at(s, i)
    } else {
        None
    }
}

/// The inline for a span and what it holds.
pub open spec fn span_node(span: SpanView, children: Seq<InlineView>) -> InlineView {
    match span.kind {
        SpanKind::Emphasis => InlineView::Emphasis(children),
        SpanKind::Strong => InlineView::Strong(children),
        SpanKind::StrongEmphasis => InlineView::Emphasis(seq![InlineView::Strong(children)]),
        SpanKind::Strikethrough => InlineView::Strikethrough(children),
        SpanKind::Link => InlineView::Link {
            destination: span.destination,
            title: span.title,
            children,
        },
    }
}

/// The code span that begins at index `i` with a run of backticks: up to
/// the next run of the same length.
pub open spec fn code_at(s: Seq<char>, i: int) -> Option<(InlineView, int)> {
    let k = repeat_len(s, i, '`') as int;
    let close = find_ticks(s, i + k, k);
    if k >= 1 && close >= i + k {
        Some((InlineView::CodeSpan(code_text(s.subrange(i + k, close))), close + k - i))
    } else {
        None
    }
}

/// The image that begins at index `i` with `![`.
pub open spec fn image_at(s: Seq<char>, i: int) -> Option<(InlineView, int)> {
    if i + 1 < s.len() && s[i + 1] == '[' {
        let close = bracket_end(s, i + 2, 0);
        if i + 2 <= close && close + 1 < s.len() && s[close + 1] == '(' {
            match link_tail(s, close + 2) {
                Some((destination, title, end)) => if end > close + 2 && end <= s.len() {
                    Some(
                        (
                            InlineView::Image {
                                destination,
                                title,
                                alt: unbackslash(s.subrange(i + 2, close)),
                            },
                            end - i,
                        ),
                    )
                } else {
                    None
                },
                None => None,
            }
        } else {
            None
        }
    } else {
        None
    }
}

/// The raw HTML that begins at index `i` with `<`: a tag, a comment or a
/// link in angle brackets, up to the next `>`.
pub open spec fn html_at(s: Seq<char>, i: int) -> Option<(InlineView, int)> {
    if i + 1 < s.len() && (is_letter(s[i + 1]) || s[i + 1] == '/' || s[i + 1] == '!' || s[i + 1]
        == '?') {
        let end = tag_end(s, i + 1);
        if end > i {
            Some((InlineView::RawHtmlInline(s.subrange(i, end + 1)), end + 1 - i))
        } else {
            None
        }
    } else {
        None
    }
}

/// The inline without inlines in it that begins at index `i`, if one
/// does, and its length.
pub open spec fn leaf_at(s: Seq<char>, i: int) -> Option<(InlineView, int)> {
    if !(0 <= i < s.len()) {
        None
    } else if s[i] == '`' {
        code_at(s, i)
    } else if s[i] == '!' {
        image_at(s, i)
    } else if s[i] == '<' {
        html_at(s, i)
    } else {
        None
    }
}

/// The number of characters that are taken as they are where nothing
/// begins at index `i`: a whole run of a character that could have begun
/// something, one character otherwise.
pub open spec fn literal_len(s: Seq<char>, i: int) -> int {
    if 0 <= i < s.len() && (s[i] == '`' || s[i] == '*' || s[i] == '_' || s[i] == '~') {
        repeat_len(s, i, s[i]) as int
    } else {
        1
    }
}

/// The inline that holds inlines and begins at index `i`, where one does
/// and the text may be read one level deeper.
pub open spec fn nested_at(s: Seq<char>, i: int, depth: nat) -> Option<SpanView> {
    match span_at(s, i) {
        Some(span) => if depth > 0 && span.length >= 1 && i + span.length <= s.len() && 0
            <= span.from <= span.to <= s.len() {
            Some(span)
        } else {
            None
        },
        None => None,
    }
}

/// The inlines with the text that was gathered put behind them, where
/// there is any.
pub open spec fn flush(out: Seq<InlineView>, pending: Seq<char>) -> Seq<InlineView> {
    if pending.len() > 0 {
        out.push(InlineView::Text(pending))
    } else {
        out
    }
}

/// The break that a line feed stands for: a hard one behind two spaces or
/// more, a soft one otherwise.
pub open spec fn break_after(pending: Seq<char>) -> InlineView {
    if trail_len(pending, ' ') >= 2 {
        InlineView::LineBreak
    } else {
        InlineView::SoftBreak
    }
}

/// Reads the inlines of a text from index `i` on. `pending` is the text
/// that was gathered since the last inline, `out` the inlines before it.
///
/// A line feed is a break, and the spaces around it are dropped; a
/// backslash before a line feed makes the break a hard one. A backslash
/// before a punctuation mark stands for the mark. Emphasis, struck-out
/// text and links hold inlines, which are read in the same way, `depth`
/// levels deep at most; code spans, images and raw HTML hold none. All
/// else is text.
pub open spec fn scan(
    s: Seq<char>,
    i: int,
    pending: Seq<char>,
    out: Seq<InlineView>,
    depth: nat,
) -> Seq<InlineView>
    decreases depth, s.len() - i,
{
    if i < 0 || i >= s.len() {
        flush(out, pending)
    } else if s[i] == '\n' {
        proof {
            lemma_repeat_len_bound(s, i + 1, ' ');
        }
        scan(
            s,
            i + 1 + repeat_len(s, i + 1, ' '),
            Seq::empty(),
            flush(out, without_trail(pending, ' ')).push(break_after(pending)),
            depth,
        )
    } else if s[i] == '\\' && i + 1 < s.len() && s[i + 1] == '\n' {
        proof {
            lemma_repeat_len_bound(s, i + 2, ' ');
        }
        scan(
            s,
            i + 2 + repeat_len(s, i + 2, ' '),
            Seq::empty(),
            flush(out, without_trail(pending, ' ')).push(InlineView::LineBreak),
            depth,
        )
    } else if s[i] == '\\' && i + 1 < s.len() && is_mark(s[i + 1]) {
        scan(s, i + 2, pending.push(s[i + 1]), out, depth)
    } else {
        match leaf_at(s, i) {
            Some((node, n)) => if n >= 1 && i + n <= s.len() {
                scan(s, i + n, Seq::empty(), flush(out, pending).push(node), depth)
            } else {
                flush(out, pending)
            },
            None => match nested_at(s, i, depth) {
                Some(span) => {
                    let children = scan(
                        s.subrange(span.from, span.to),
                        0,
                        Seq::empty(),
                        Seq::empty(),
                        (depth - 1) as nat,
                    );
                    scan(
                        s,
                        i + span.length,
                        Seq::empty(),
                        flush(out, pending).push(span_node(span, children)),
                        depth,
                    )
                },
                None => {
                    proof {
                        lemma_repeat_len_bound(s, i, s[i]);
                    }
                    scan(
                        s,
                        i + literal_len(s, i),
                        pending + s.subrange(i, i + literal_len(s, i)),
                        out,
                        depth,
                    )
                },
            },
        }
    }
}

/// The inlines of a text.
pub open spec fn inlines_of(s: Seq<char>) -> Seq<InlineView> {
    scan(s, 0, Seq::empty(), Seq::empty(), MAX_INLINE_DEPTH as nat)
}

/// What a search gave, as the index or -1.
pub open spec fn found_index(r: Option<usize>) -> int {
    match r {
        Some(j) => j as int,
        None => -1,
    }
}

/// Computes `opener_at`.
fn is_opener(s: &Vec<char>, i: usize, c: char, k: usize) -> (r: bool)
    requires
        i <= s.len(),
    ensures
        r == opener_at(s@, i as int, c, k as int),
{
    if k >= s.len() - i {
        return false;
    }
    if count_repeat(s, i, c) != k {
        return false;
    }
    if gap(s[i + k]) {
        return false;
    }
    if c == '_' && i > 0 && word(s[i - 1]) {
        return false;
    }
    true
}

/// Computes `closer_at`.
fn is_closer(s: &Vec<char>, j: usize, c: char, k: usize) -> (r: bool)
    requires
        j <= s.len(),
    ensures
        r == closer_at(s@, j as int, c, k as int),
{
    if j < 1 || k > s.len() - j {
        return false;
    }
    if count_repeat(s, j, c) != k {
        return false;
    }
    if gap(s[j - 1]) {
        return false;
    }
    if c == '_' && k < s.len() - j && word(s[j + k]) {
        return false;
    }
    true
}

/// Computes `find_closer`.
fn search_closer(s: &Vec<char>, from: usize, c: char, k: usize) -> (r: Option<usize>)
    requires
        from <= s.len(),
    ensures
        found_index(r) == find_closer(s@, from as int, c, k as int),
        r is Some ==> from <= r->0 < s.len() && r->0 + k <= s.len(),
{
    let mut j: usize = from;
    while j < s.len()
        invariant
            from <= j <= s.len(),
            find_closer(s@, from as int, c, k as int) == find_closer(s@, j as int, c, k as int),
        decreases s.len() - j,
    {
        if s[j] == '\\' {
            if s.len() - j < 2 {
                return None;
            }
            j += 2;
        } else if is_closer(s, j, c, k) {
            return Some(j);
        } else if s[j] == c {
            let n = count_repeat(s, j, c);
            j += n;
        } else {
            j += 1;
        }
    }
    None
}

/// Computes `find_ticks`.
fn search_ticks(s: &Vec<char>, from: usize, k: usize) -> (r: Option<usize>)
    requires
        from <= s.len(),
    ensures
        found_index(r) == find_ticks(s@, from as int, k as int),
        r is Some ==> from <= r->0 < s.len() && r->0 + k <= s.len(),
{
    let mut j: usize = from;
    while j < s.len()
        invariant
            from <= j <= s.len(),
            find_ticks(s@, from as int, k as int) == find_ticks(s@, j as int, k as int),
        decreases s.len() - j,
    {
        if s[j] == '`' {
            let n = count_repeat(s, j, '`');
            if n == k {
                return Some(j);
            }
            j += n;
        } else {
            j += 1;
        }
    }
    None
}

/// Computes `bracket_end`.
fn search_bracket(s: &Vec<char>, from: usize) -> (r: Option<usize>)
    requires
        from <= s.len(),
    ensures
        found_index(r) == bracket_end(s@, from as int, 0),
        r is Some ==> from <= r->0 < s.len(),
{
    let mut j: usize = from;
    let mut open: usize = 0;
    while j < s.len()
        invariant
            from <= j <= s.len(),
            open <= j - from,
            bracket_end(s@, from as int, 0) == bracket_end(s@, j as int, open as nat),
        decreases s.len() - j,
    {
        if s[j] == '\\' {
            if s.len() - j < 2 {
                return None;
            }
            j += 2;
        } else if s[j] == '[' {
            open += 1;
            j += 1;
        } else if s[j] == ']' {
            if open == 0 {
                return Some(j);
            }
            open -= 1;
            j += 1;
        } else {
            j += 1;
        }
    }
    None
}

/// Computes `destination_end`.
fn search_destination_end(s: &Vec<char>, from: usize) -> (r: usize)
    requires
        from <= s.len(),
    ensures
        r == destination_end(s@, from as int),
        from <= r <= s.len(),
{
    let mut j: usize = from;
    while j < s.len()
        invariant
            from <= j <= s.len(),
            destination_end(s@, from as int) == destination_end(s@, j as int),
        decreases s.len() - j,
    {
        if s[j] == '\\' && s.len() - j >= 2 {
            j += 2;
        } else if s[j] == ' ' || s[j] == '\n' || s[j] == ')' {
            return j;
        } else {
            j += 1;
        }
    }
    j
}

/// Computes `quote_end`.
fn search_quote(s: &Vec<char>, from: usize) -> (r: Option<usize>)
    requires
        from <= s.len(),
    ensures
        found_index(r) == quote_end(s@, from as int),
        r is Some ==> from <= r->0 < s.len(),
{
    let mut j: usize = from;
    while j < s.len()
        invariant
            from <= j <= s.len(),
            quote_end(s@, from as int) == quote_end(s@, j as int),
        decreases s.len() - j,
    {
        if s[j] == '\\' {
            if s.len() - j < 2 {
                return None;
            }
            j += 2;
        } else if s[j] == '"' {
            return Some(j);
        } else {
            j += 1;
        }
    }
    None
}

/// Computes `tag_end`.
fn search_tag_end(s: &Vec<char>, from: usize) -> (r: Option<usize>)
    requires
        from <= s.len(),
    ensures
        found_index(r) == tag_end(s@, from as int),
        r is Some ==> from <= r->0 < s.len(),
{
    let mut j: usize = from;
    while j < s.len()
        invariant
            from <= j <= s.len(),
            tag_end(s@, from as int) == tag_end(s@, j as int),
        decreases s.len() - j,
    {
        if s[j] == '>' {
            return Some(j);
        } else if s[j] == '<' {
            return None;
        } else {
            j += 1;
        }
    }
    None
}

/// Computes `unbackslash` of the characters `s[from..to]`.
pub fn unbackslash_range(s: &Vec<char>, from: usize, to: usize) -> (r: Vec<char>)
    requires
        from <= to <= s.len(),
    ensures
        r@ == unbackslash(s@.subrange(from as int, to as int)),
{
    let ghost whole = s@.subrange(from as int, to as int);
    let mut out: Vec<char> = Vec::new();
    let mut i: usize = from;
    proof {
        assert(whole.skip(0) =~= whole);
    }
    while i < to
        invariant
            from <= i <= to <= s.len(),
            whole == s@.subrange(from as int, to as int),
            out@ + unbackslash(whole.skip(i - from)) == unbackslash(whole),
        decreases to - i,
    {
        let ghost before = out@;
        let ghost rest = whole.skip(i - from);
        proof {
            assert(rest[0] == s@[i as int]);
            if to - i > 1 {
                assert(rest[1] == s@[i + 1]);
            }
        }
        if s[i] == '\\' && to - i > 1 && mark(s[i + 1]) {
            out.push(s[i + 1]);
            proof {
                assert(rest.skip(2) =~= whole.skip(i + 2 - from));
                assert(out@ + unbackslash(whole.skip(i + 2 - from)) =~= before + unbackslash(rest));
            }
            i += 2;
        } else {
            out.push(s[i]);
            proof {
                assert(rest.skip(1) =~= whole.skip(i + 1 - from));
                assert(out@ + unbackslash(whole.skip(i + 1 - from)) =~= before + unbackslash(rest));
            }
            i += 1;
        }
    }
    proof {
        assert(whole.skip(to - from) =~= Seq::<char>::empty());
        assert(out@ + Seq::<char>::empty() =~= out@);
    }
    out
}

/// Computes `code_text` of the characters `s[from..to]`.
fn code_chars(s: &Vec<char>, from: usize, to: usize) -> (r: Vec<char>)
    requires
        from <= to <= s.len(),
    ensures
        r@ == code_text(s@.subrange(from as int, to as int)),
{
    let ghost whole = s@.subrange(from as int, to as int);
    let mut line: Vec<char> = Vec::new();
    let mut i: usize = from;
    while i < to
        invariant
            from <= i <= to <= s.len(),
            whole == s@.subrange(from as int, to as int),
            line.len() == i - from,
            forall|j: int| 0 <= j < i - from ==> line[j] == one_line(whole)[j],
        decreases to - i,
    {
        let c = s[i];
        line.push(if c == '\n' { ' ' } else { c });
        i += 1;
    }
    proof {
        assert(line@ =~= one_line(whole));
    }
    let n = line.len();
    if n >= 2 && line[0] == ' ' && line[n - 1] == ' ' && count_trail(&line, ' ') < n {
        copy_range(&line, 1, n - 1)
    } else {
        line
    }
}

/// Computes `link_tail`.
fn read_link_tail(s: &Vec<char>, from: usize) -> (r: Option<(Vec<char>, Vec<char>, usize)>)
    requires
        from <= s.len(),
    ensures
        match r {
            Some((d, t, end)) => link_tail(s@, from as int) == Some((d@, t@, end as int)) && from
                < end <= s.len(),
            None => link_tail(s@, from as int) is None,
        },
{
    let d = search_destination_end(s, from);
    if d < s.len() && s[d] == ')' {
        let destination = unbackslash_range(s, from, d);
        return Some((destination, Vec::new(), d + 1));
    }
    if d < s.len() && s.len() - d > 1 && s[d] == ' ' && s[d + 1] == '"' {
        match search_quote(s, d + 2) {
            Some(t) => {
                if s.len() - t > 1 && s[t + 1] == ')' {
                    let destination = unbackslash_range(s, from, d);
                    let title = unbackslash_range(s, d + 2, t);
                    Some((destination, title, t + 2))
                } else {
                    None
                }
            },
            None => None,
        }
    } else {
        None
    }
}

/// An inline that holds inlines, as it is found in a text.
pub struct Span {
    pub kind: SpanKind,
    pub from: usize,
    pub to: usize,
    pub length: usize,
    pub destination: Vec<char>,
    pub title: Vec<char>,
}

impl View for Span {
    type V = SpanView;

    open spec fn view(&self) -> SpanView {
        SpanView {
            kind: self.kind,
            from: self.from as int,
            to: self.to as int,
            length: self.length as int,
            destination: self.destination@,
            title: self.title@,
        }
    }
}

/// What a search for a span gave, as a mathematical value.
pub open spec fn span_view(r: Option<Span>) -> Option<SpanView> {
    match r {
        Some(span) => Some(span@),
        None => None,
    }
}

/// Computes `emphasis_at`.
fn read_emphasis(s: &Vec<char>, i: usize, c: char) -> (r: Option<Span>)
    requires
        i < s.len(),
    ensures
        span_view(r) == emphasis_at(s@, i as int, c),
{
    let k = count_repeat(s, i, c);
    if 1 <= k && k <= 3 && is_opener(s, i, c, k) {
        match search_closer(s, i + k, c, k) {
            Some(close) => {
                if close > i + k {
                    let kind = if k == 1 {
                        SpanKind::Emphasis
                    } else if k == 2 {
                        SpanKind::Strong
                    } else {
                        SpanKind::StrongEmphasis
                    };
                    Some(
                        Span {
                            kind,
                            from: i + k,
                            to: close,
                            length: close - i + k,
                            destination: Vec::new(),
                            title: Vec::new(),
                        },
                    )
                } else {
                    None
                }
            },
            None => None,
        }
    } else {
        None
    }
}

/// Computes `strike_at`.
fn read_strike(s: &Vec<char>, i: usize) -> (r: Option<Span>)
    requires
        i < s.len(),
    ensures
        span_view(r) == strike_at(s@, i as int),
{
    if is_opener(s, i, '~', 2) {
        match search_closer(s, i + 2, '~', 2) {
            Some(close) => {
                if close > i + 2 {
                    Some(
                        Span {
                            kind: SpanKind::Strikethrough,
                            from: i + 2,
                            to: close,
                            length: close - i + 2,
                            destination: Vec::new(),
                            title: Vec::new(),
                        },
                    )
                } else {
                    None
                }
            },
            None => None,
        }
    } else {
        None
    }
}

/// Computes `link_at`.
fn read_link(s: &Vec<char>, i: usize) -> (r: Option<Span>)
    requires
        i < s.len(),
    ensures
        span_view(r) == link_at(s@, i as int),
{
    match search_bracket(s, i + 1) {
        Some(close) => {
            if s.len() - close > 1 && s[close + 1] == '(' {
                match read_link_tail(s, close + 2) {
                    Some((destination, title, end)) => Some(
                        Span { kind: SpanKind::Link, from: i + 1, to: close, length: end - i, destination, title },
                    ),
                    None => None,
                }
            } else {
                None
            }
        },
        None => None,
    }
}

/// Computes `nested_at`.
pub fn read_span(s: &Vec<char>, i: usize, depth: usize) -> (r: Option<Span>)
    requires
        i < s.len(),
    ensures
        span_view(r) == nested_at(s@, i as int, depth as nat),
        r is Some ==> depth > 0 && r->0.length >= 1 && i + r->0.length <= s.len() && r->0.from
            <= r->0.to <= s.len(),
{
    let c = s[i];
    let found = if c == '*' || c == '_' {
        read_emphasis(s, i, c)
    } else if c == '~' {
        read_strike(s, i)
    } else if c == '[' {
        read_link(s, i)
    } else {
        None
    };
    match found {
        Some(span) => {
            if depth > 0 && span.length >= 1 && span.length <= s.len() - i && span.from <= span.to
                && span.to <= s.len() {
                Some(span)
            } else {
                None
            }
        },
        None => None,
    }
}

/// What a search for an inline without inlines in it gave, as a
/// mathematical value.
pub open spec fn leaf_view(r: Option<(Inline, usize)>) -> Option<(InlineView, int)> {
    match r {
        Some((x, n)) => Some((x@, n as int)),
        None => None,
    }
}

/// Computes `leaf_at`.
#[verifier::rlimit(40)]
pub fn read_leaf(s: &Vec<char>, i: usize) -> (r: Option<(Inline, usize)>)
    requires
        i < s.len(),
    ensures
        leaf_view(r) == leaf_at(s@, i as int),
{
    let c = s[i];
    if c == '`' {
        let k = count_repeat(s, i, '`');
        match search_ticks(s, i + k, k) {
            Some(close) => {
                if k >= 1 {
                    let content = code_chars(s, i + k, close);
                    Some((Inline::CodeSpan(string_of(&content)), close - i + k))
                } else {
                    None
                }
            },
            None => None,
        }
    } else if c == '!' {
        if s.len() - i > 1 && s[i + 1] == '[' {
            match search_bracket(s, i + 2) {
                Some(close) => {
                    if s.len() - close > 1 && s[close + 1] == '(' {
                        match read_link_tail(s, close + 2) {
                            Some((destination, title, end)) => {
                                let alt = unbackslash_range(s, i + 2, close);
                                Some(
                                    (
                                        Inline::Image {
                                            destination: string_of(&destination),
                                            title: string_of(&title),
                                            alt: string_of(&alt),
                                        },
                                        end - i,
                                    ),
                                )
                            },
                            None => None,
                        }
                    } else {
                        None
                    }
                },
                None => None,
            }
        } else {
            None
        }
    } else if c == '<' {
        if s.len() - i > 1 && (letter(s[i + 1]) || s[i + 1] == '/' || s[i + 1] == '!' || s[i + 1]
            == '?') {
            match search_tag_end(s, i + 1) {
                Some(end) => {
                    let literal = copy_range(s, i, end + 1);
                    Some((Inline::RawHtmlInline(string_of(&literal)), end + 1 - i))
                },
                None => None,
            }
        } else {
            None
        }
    } else {
        None
    }
}

/// Puts the text that was gathered behind the inlines, where there is
/// any, and begins to gather anew.
fn flush_text(out: &mut Vec<Inline>, pending: &mut Vec<char>)
    ensures
        inline_views(final(out)@) == flush(inline_views(old(out)@), old(pending)@),
        final(pending)@ == Seq::<char>::empty(),
{
    if pending.len() > 0 {
        let text = string_of(pending);
        out.push(Inline::Text(text));
        proof {
            assert(inline_views(out@) =~= inline_views(old(out)@).push(InlineView::Text(old(pending)@)));
        }
    }
    pending.clear();
}

/// Puts an inline behind the inlines.
fn push_node(out: &mut Vec<Inline>, node: Inline)
    ensures
        inline_views(final(out)@) == inline_views(old(out)@).push(node@),
{
    out.push(node);
    proof {
        assert(inline_views(out@) =~= inline_views(old(out)@).push(node@));
    }
}

/// Takes the spaces off the end of the text that was gathered.
fn drop_trailing_spaces(pending: &mut Vec<char>)
    ensures
        final(pending)@ == without_trail(old(pending)@, ' '),
{
    let n = count_trail(pending, ' ');
    let keep = pending.len() - n;
    pending.truncate(keep);
    proof {
        assert(pending@ =~= without_trail(old(pending)@, ' '));
    }
}

/// The inline for a span and what it holds.
fn make_node(span: Span, children: Vec<Inline>) -> (r: Inline)
    ensures
        r@ == span_node(span@, inline_views(children@)),
{
    match span.kind {
        SpanKind::Emphasis => Inline::Emphasis(children),
        SpanKind::Strong => Inline::Strong(children),
        SpanKind::StrongEmphasis => {
            let mut inner: Vec<Inline> = Vec::new();
            let strong = Inline::Strong(children);
            inner.push(strong);
            proof {
                assert(inline_views(inner@) =~= seq![InlineView::Strong(inline_views(children@))]);
            }
            Inline::Emphasis(inner)
        },
        SpanKind::Strikethrough => Inline::Strikethrough(children),
        SpanKind::Link => Inline::Link {
            destination: string_of(&span.destination),
            title: string_of(&span.title),
            children,
        },
    }
}

/// Computes `scan` from the start of a text: the inlines of the text,
/// read `depth` levels deep.
#[verifier::rlimit(40)]
pub fn read_inlines_to(s: &Vec<char>, depth: usize) -> (r: Vec<Inline>)
    ensures
        inline_views(r@) == scan(s@, 0, Seq::empty(), Seq::empty(), depth as nat),
    decreases depth,
{
    let mut out: Vec<Inline> = Vec::new();
    let mut pending: Vec<char> = Vec::new();
    let mut i: usize = 0;
    let ghost goal = scan(s@, 0, Seq::empty(), Seq::empty(), depth as nat);
    proof {
        assert(inline_views(out@) =~= Seq::<InlineView>::empty());
    }
    while i < s.len()
        invariant
            i <= s.len(),
            goal == scan(s@, 0, Seq::empty(), Seq::empty(), depth as nat),
            goal == scan(s@, i as int, pending@, inline_views(out@), depth as nat),
        decreases s.len() - i,
    {
        let c = s[i];
        if c == '\n' {
            let hard = count_trail(&pending, ' ') >= 2;
            drop_trailing_spaces(&mut pending);
            flush_text(&mut out, &mut pending);
            push_node(&mut out, if hard { Inline::LineBreak } else { Inline::SoftBreak });
            let n = count_repeat(s, i + 1, ' ');
            i = i + 1 + n;
        } else if c == '\\' && s.len() - i > 1 && s[i + 1] == '\n' {
            drop_trailing_spaces(&mut pending);
            flush_text(&mut out, &mut pending);
            push_node(&mut out, Inline::LineBreak);
            let n = count_repeat(s, i + 2, ' ');
            i = i + 2 + n;
        } else if c == '\\' && s.len() - i > 1 && mark(s[i + 1]) {
            pending.push(s[i + 1]);
            i += 2;
        } else {
            match read_leaf(s, i) {
                Some((node, n)) => {
                    if n >= 1 && n <= s.len() - i {
                        flush_text(&mut out, &mut pending);
                        push_node(&mut out, node);
                        i += n;
                    } else {
                        proof {
                            assert(goal == flush(inline_views(out@), pending@));
                        }
                        flush_text(&mut out, &mut pending);
                        return out;
                    }
                },
                None => match read_span(s, i, depth) {
                    Some(span) => {
                        let content = copy_range(s, span.from, span.to);
                        let children = read_inlines_to(&content, depth - 1);
                        let length = span.length;
                        flush_text(&mut out, &mut pending);
                        push_node(&mut out, make_node(span, children));
                        i += length;
                    },
                    None => {
                        let n = if c == '`' || c == '*' || c == '_' || c == '~' {
                            count_repeat(s, i, c)
                        } else {
                            1
                        };
                        append_range(&mut pending, s, i, i + n);
                        i += n;
                    },
                },
            }
        }
    }
    flush_text(&mut out, &mut pending);
    out
}

/// The inlines of a text: see `scan`.
pub fn read_inlines(s: &Vec<char>) -> (r: Vec<Inline>)
    ensures
        inline_views(r@) == inlines_of(s@),
{
    read_inlines_to(s, MAX_INLINE_DEPTH)
}

} // verus!
