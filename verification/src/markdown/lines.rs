//! The lines of a text, and what a line is by its first characters.

use vstd::prelude::*;
use crate::entries::space;
use crate::markdown::chars::{count_repeat, is_letter, letter, repeat_len};
use crate::number::{digit_value, from_decimal, number_of, value_of_digit};
use crate::text::{copy_range, rows, spells};

verus! {

/// The number of characters from index `i` up to the next line feed or the
/// end of the text.
pub open spec fn line_len(s: Seq<char>, i: int) -> nat
    decreases s.len() - i,
{
    if 0 <= i < s.len() && s[i] != '\n' {
        1 + line_len(s, i + 1)
    } else {
        0
    }
}

/// A line is no longer than what is left of the text.
pub proof fn lemma_line_len_bound(s: Seq<char>, i: int)
    requires
        0 <= i <= s.len(),
    ensures
        i + line_len(s, i) <= s.len(),
    decreases s.len() - i,
{
    if i < s.len() && s[i] != '\n' {
        lemma_line_len_bound(s, i + 1);
    }
}

/// A line without the carriage return at its end.
pub open spec fn chomp(l: Seq<char>) -> Seq<char> {
    if l.len() > 0 && l.last() == '\r' {
        l.drop_last()
    } else {
        l
    }
}

/// The lines of a text from index `i` on. A line ends with a line feed or
/// with the text; a carriage return before the line feed is dropped.
pub open spec fn lines_from(s: Seq<char>, i: int) -> Seq<Seq<char>>
    decreases s.len() - i,
{
    if i < 0 || i >= s.len() {
        Seq::empty()
    } else {
        let n = line_len(s, i) as int;
        proof {
            lemma_line_len_bound(s, i);
        }
        if i + n < s.len() {
            seq![chomp(s.subrange(i, i + n))] + lines_from(s, i + n + 1)
        } else {
            seq![chomp(s.subrange(i, i + n))]
        }
    }
}

/// The lines of a text.
pub open spec fn lines_of(s: Seq<char>) -> Seq<Seq<char>> {
    lines_from(s, 0)
}

/// Computes `lines_of`.
pub fn split_lines(s: &Vec<char>) -> (r: Vec<Vec<char>>)
    ensures
        rows(r@) == lines_of(s@),
{
    let mut out: Vec<Vec<char>> = Vec::new();
    let mut i: usize = 0;
    proof {
        assert(rows(out@) + lines_from(s@, 0) =~= lines_from(s@, 0));
    }
    while i < s.len()
        invariant
            i <= s.len(),
            rows(out@) + lines_from(s@, i as int) == lines_of(s@),
        decreases s.len() - i,
    {
        let ghost before = rows(out@);
        let mut end: usize = i;
        while end < s.len() && s[end] != '\n'
            invariant
                i <= end <= s.len(),
                line_len(s@, i as int) == (end - i) + line_len(s@, end as int),
            decreases s.len() - end,
        {
            end += 1;
        }
        let mut stop = end;
        if stop > i && s[stop - 1] == '\r' {
            stop = stop - 1;
        }
        let line = copy_range(s, i, stop);
        proof {
            let whole = s@.subrange(i as int, end as int);
            if whole.len() > 0 {
                assert(whole.last() == s@[end - 1]);
            }
            assert(line@ =~= chomp(whole));
        }
        out.push(line);
        proof {
            assert(rows(out@) =~= before + seq![line@]);
            if end < s.len() {
                assert(rows(out@) + lines_from(s@, end + 1) =~= before + lines_from(s@, i as int));
            } else {
                assert(rows(out@) + lines_from(s@, end as int) =~= before + lines_from(s@, i as int));
            }
        }
        if end < s.len() {
            i = end + 1;
        } else {
            i = end;
        }
    }
    proof {
        assert(rows(out@) + Seq::<Seq<char>>::empty() =~= rows(out@));
    }
    out
}

/// The number of spaces and tabulators in front of a line, from index `i`
/// on.
pub open spec fn blank_len(l: Seq<char>, i: int) -> nat
    decreases l.len() - i,
{
    if 0 <= i < l.len() && (l[i] == ' ' || l[i] == '\t') {
        1 + blank_len(l, i + 1)
    } else {
        0
    }
}

/// A line of spaces and tabulators, or an empty one.
pub open spec fn is_blank(l: Seq<char>) -> bool {
    blank_len(l, 0) == l.len()
}

/// Computes `blank_len`.
pub fn count_blank(l: &Vec<char>, i: usize) -> (r: usize)
    requires
        i <= l.len(),
    ensures
        r == blank_len(l@, i as int),
        i + r <= l.len(),
{
    let mut j: usize = i;
    while j < l.len() && (l[j] == ' ' || l[j] == '\t')
        invariant
            i <= j <= l.len(),
            blank_len(l@, i as int) == (j - i) + blank_len(l@, j as int),
        decreases l.len() - j,
    {
        j += 1;
    }
    j - i
}

/// Computes `is_blank`.
pub fn blank(l: &Vec<char>) -> (r: bool)
    ensures
        r == is_blank(l@),
{
    count_blank(l, 0) == l.len()
}

/// The number of backticks that open a code block on a line: three or
/// more in front of a line that holds no other backtick.
pub open spec fn fence_len(l: Seq<char>) -> nat {
    let k = repeat_len(l, 0, '`');
    if k >= 3 && !has_char(l, k as int, '`') {
        k
    } else {
        0
    }
}

/// Whether `c` stands at index `i` or behind it.
pub open spec fn has_char(l: Seq<char>, i: int, c: char) -> bool
    decreases l.len() - i,
{
    if i < 0 || i >= l.len() {
        false
    } else if l[i] == c {
        true
    } else {
        has_char(l, i + 1, c)
    }
}

/// Whether a line closes a code block that `k` backticks opened: it holds
/// at least as many backticks and nothing else but white space.
pub open spec fn closes_fence(l: Seq<char>, k: nat) -> bool {
    let n = repeat_len(l, 0, '`');
    n >= k && n >= 3 && blank_len(l, n as int) == l.len() - n
}

/// The level of the heading on a line: the number of `#` in front of it,
/// where there are one to six of them and a space or the end of the line
/// follows; 0 where the line is no heading.
pub open spec fn heading_level(l: Seq<char>) -> nat {
    let k = repeat_len(l, 0, '#');
    if 1 <= k <= 6 && (k == l.len() || l[k as int] == ' ') {
        k
    } else {
        0
    }
}

/// The number of times that `c` stands on a line from index `i` on, where
/// the line holds nothing but `c` and spaces; -1 otherwise.
pub open spec fn rule_count(l: Seq<char>, i: int, c: char) -> int
    decreases l.len() - i,
{
    if i < 0 || i >= l.len() {
        0
    } else if l[i] == c {
        let rest = rule_count(l, i + 1, c);
        if rest < 0 {
            -1
        } else {
            rest + 1
        }
    } else if l[i] == ' ' {
        rule_count(l, i + 1, c)
    } else {
        -1
    }
}

/// A thematic break: a line of three or more `-`, `*` or `_`, all the
/// same, with nothing but spaces between them.
pub open spec fn is_rule(l: Seq<char>) -> bool {
    l.len() > 0 && (l[0] == '-' || l[0] == '*' || l[0] == '_') && rule_count(l, 0, l[0]) >= 3
}

/// A line of a quote: it begins with `>`.
pub open spec fn is_quote(l: Seq<char>) -> bool {
    l.len() > 0 && l[0] == '>'
}

/// What a line of a quote holds: the line without the `>` and without one
/// space behind it.
pub open spec fn unquoted_line(l: Seq<char>) -> Seq<char> {
    if l.len() > 1 && l[1] == ' ' {
        l.skip(2)
    } else if l.len() > 0 {
        l.skip(1)
    } else {
        l
    }
}

/// The number of digits in front of a line, from index `i` on.
pub open spec fn digits_len(l: Seq<char>, i: int) -> nat
    decreases l.len() - i,
{
    if 0 <= i < l.len() && digit_value(l[i]) is Some {
        1 + digits_len(l, i + 1)
    } else {
        0
    }
}

/// The marker of an item of a list: whether it is numbered, the sign of
/// the marker, the number, and the width of the marker with the space
/// behind it.
pub ghost struct MarkerView {
    pub ordered: bool,
    pub sign: char,
    pub number: nat,
    pub width: int,
}

/// The marker in front of a line: `-`, `+` or `*`, or a number of one to
/// nine digits with `.` or `)` behind it; and then a space or the end of
/// the line.
pub open spec fn marker_of(l: Seq<char>) -> Option<MarkerView> {
    let d = digits_len(l, 0) as int;
    if l.len() > 0 && (l[0] == '-' || l[0] == '+' || l[0] == '*') && (l.len() == 1 || l[1] == ' ') {
        Some(MarkerView { ordered: false, sign: l[0], number: 0, width: 2 })
    } else if 1 <= d <= 9 && d < l.len() && (l[d] == '.' || l[d] == ')') && (l.len() == d + 1 || l[d
        + 1] == ' ') {
        match number_of(l.take(d)) {
            Some(n) => if n <= u64::MAX {
                Some(MarkerView { ordered: true, sign: l[d], number: n, width: d + 2 })
            } else {
                None
            },
            None => None,
        }
    } else {
        None
    }
}

/// The number of letters and digits of ASCII from index `i` of a line
/// on.
pub open spec fn name_len(l: Seq<char>, i: int) -> nat
    decreases l.len() - i,
{
    if 0 <= i < l.len() && (is_letter(l[i]) || digit_value(l[i]) is Some) {
        1 + name_len(l, i + 1)
    } else {
        0
    }
}

/// The names of the elements of HTML that make up blocks, in small
/// letters.
pub open spec fn is_block_name(name: Seq<char>) -> bool {
    name == "address"@ || name == "article"@ || name == "aside"@ || name == "blockquote"@ || name
        == "body"@ || name == "center"@ || name == "dd"@ || name == "details"@ || name == "dialog"@
        || name == "div"@ || name == "dl"@ || name == "dt"@ || name == "fieldset"@ || name
        == "figcaption"@ || name == "figure"@ || name == "footer"@ || name == "form"@ || name
        == "h1"@ || name == "h2"@ || name == "h3"@ || name == "h4"@ || name == "h5"@ || name
        == "h6"@ || name == "head"@ || name == "header"@ || name == "hr"@ || name == "html"@
        || name == "iframe"@ || name == "li"@ || name == "link"@ || name == "main"@ || name
        == "menu"@ || name == "nav"@ || name == "ol"@ || name == "p"@ || name == "pre"@ || name
        == "script"@ || name == "section"@ || name == "style"@ || name == "summary"@ || name
        == "table"@ || name == "tbody"@ || name == "td"@ || name == "tfoot"@ || name == "th"@
        || name == "thead"@ || name == "title"@ || name == "tr"@ || name == "ul"@
}

/// Whether a line begins raw HTML that stands for itself: `<!` or `<?`,
/// or a tag, opening or closing, of an element that makes up a block.
pub open spec fn is_html(l: Seq<char>) -> bool {
    if l.len() < 2 || l[0] != '<' {
        false
    } else if l[1] == '!' || l[1] == '?' {
        true
    } else {
        let from: int = if l[1] == '/' {
            2
        } else {
            1
        };
        let n = name_len(l, from) as int;
        n > 0 && from + n <= l.len() && is_block_name(crate::text::lower(l.subrange(from, from + n)))
    }
}

/// Computes `has_char`.
pub fn contains_from(l: &Vec<char>, i: usize, c: char) -> (r: bool)
    requires
        i <= l.len(),
    ensures
        r == has_char(l@, i as int, c),
{
    let mut j: usize = i;
    while j < l.len()
        invariant
            i <= j <= l.len(),
            has_char(l@, i as int, c) == has_char(l@, j as int, c),
        decreases l.len() - j,
    {
        if l[j] == c {
            return true;
        }
        j += 1;
    }
    false
}

/// Computes `fence_len`.
pub fn fence_of(l: &Vec<char>) -> (r: usize)
    ensures
        r == fence_len(l@),
        r <= l.len(),
{
    let k = count_repeat(l, 0, '`');
    if k >= 3 && !contains_from(l, k, '`') {
        k
    } else {
        0
    }
}

/// Computes `closes_fence`.
pub fn is_closing_fence(l: &Vec<char>, k: usize) -> (r: bool)
    ensures
        r == closes_fence(l@, k as nat),
{
    let n = count_repeat(l, 0, '`');
    n >= k && n >= 3 && count_blank(l, n) == l.len() - n
}

/// Computes `heading_level`.
pub fn heading_of(l: &Vec<char>) -> (r: usize)
    ensures
        r == heading_level(l@),
        r <= 6,
        r <= l.len(),
{
    let k = count_repeat(l, 0, '#');
    if 1 <= k && k <= 6 && (k == l.len() || l[k] == ' ') {
        k
    } else {
        0
    }
}

/// Computes `is_rule`.
pub fn is_thematic(l: &Vec<char>) -> (r: bool)
    ensures
        r == is_rule(l@),
{
    if l.len() == 0 {
        return false;
    }
    let c = l[0];
    if !(c == '-' || c == '*' || c == '_') {
        return false;
    }
    // from the end of the line to its start, counting
    let mut i: usize = l.len();
    let mut count: usize = 0;
    let mut good: bool = true;
    while i > 0
        invariant
            i <= l.len(),
            count <= l.len() - i,
            good ==> rule_count(l@, i as int, c) == count,
            !good ==> rule_count(l@, i as int, c) == -1,
        decreases i,
    {
        i -= 1;
        if good {
            if l[i] == c {
                count += 1;
            } else if l[i] != ' ' {
                good = false;
            }
        }
    }
    good && count >= 3
}

/// Computes `digits_len`.
pub fn count_digits(l: &Vec<char>, i: usize) -> (r: usize)
    requires
        i <= l.len(),
    ensures
        r == digits_len(l@, i as int),
        i + r <= l.len(),
{
    let mut j: usize = i;
    while j < l.len() && value_of_digit(l[j]).is_some()
        invariant
            i <= j <= l.len(),
            digits_len(l@, i as int) == (j - i) + digits_len(l@, j as int),
        decreases l.len() - j,
    {
        j += 1;
    }
    j - i
}

/// The marker of an item of a list.
#[derive(Clone, Copy, Debug, PartialEq, Eq)]
pub struct Marker {
    pub ordered: bool,
    pub sign: char,
    pub number: u64,
    pub width: usize,
}

impl View for Marker {
    type V = MarkerView;

    open spec fn view(&self) -> MarkerView {
        MarkerView {
            ordered: self.ordered,
            sign: self.sign,
            number: self.number as nat,
            width: self.width as int,
        }
    }
}

/// What a search for a marker gave, as a mathematical value.
pub open spec fn marker_view(r: Option<Marker>) -> Option<MarkerView> {
    match r {
        Some(m) => Some(m@),
        None => None,
    }
}

/// Computes `marker_of`.
pub fn read_marker(l: &Vec<char>) -> (r: Option<Marker>)
    ensures
        marker_view(r) == marker_of(l@),
        r is Some ==> 2 <= r->0.width <= 11,
{
    let d = count_digits(l, 0);
    if l.len() > 0 && (l[0] == '-' || l[0] == '+' || l[0] == '*') && (l.len() == 1 || l[1] == ' ') {
        Some(Marker { ordered: false, sign: l[0], number: 0, width: 2 })
    } else if 1 <= d && d <= 9 && d < l.len() && (l[d] == '.' || l[d] == ')') && (l.len() == d + 1
        || l[d + 1] == ' ') {
        let digits = copy_range(l, 0, d);
        proof {
            assert(digits@ =~= l@.take(d as int));
        }
        match from_decimal(&digits) {
            Some(n) => Some(Marker { ordered: true, sign: l[d], number: n, width: d + 2 }),
            None => None,
        }
    } else {
        None
    }
}

/// The index of the first `c` at index `i` of a line or behind it, or
/// the length of the line.
pub open spec fn first_index(l: Seq<char>, i: int, c: char) -> int
    decreases l.len() - i,
{
    if i < 0 || i >= l.len() {
        l.len() as int
    } else if l[i] == c {
        i
    } else {
        first_index(l, i + 1, c)
    }
}

/// Whether a line defines what a reference stands for: a label between
/// brackets at the start of the line, and a colon behind it.
pub open spec fn is_reference(l: Seq<char>) -> bool {
    let close = first_index(l, 0, ']');
    l.len() > 0 && l[0] == '[' && 2 <= close && close + 1 < l.len() && l[close + 1] == ':'
}

/// Whether a line begins a block that is kept as it is: raw HTML, a line
/// that is four columns in or more, or the definition of a reference.
/// Such blocks are neither read further nor offered for translation.
pub open spec fn is_raw(l: Seq<char>) -> bool {
    is_html(l) || repeat_len(l, 0, ' ') >= 4 || is_reference(l)
}

/// Computes `first_index`.
pub fn find_first_index(l: &Vec<char>, i: usize, c: char) -> (r: usize)
    requires
        i <= l.len(),
    ensures
        r == first_index(l@, i as int, c),
        i <= r <= l.len(),
{
    let mut j: usize = i;
    while j < l.len() && l[j] != c
        invariant
            i <= j <= l.len(),
            first_index(l@, i as int, c) == first_index(l@, j as int, c),
        decreases l.len() - j,
    {
        j += 1;
    }
    j
}

/// Computes `is_raw`.
pub fn raw_line(l: &Vec<char>) -> (r: bool)
    ensures
        r == is_raw(l@),
{
    if html_line(l) || count_repeat(l, 0, ' ') >= 4 {
        return true;
    }
    let close = find_first_index(l, 0, ']');
    l.len() > 0 && l[0] == '[' && 2 <= close && close < l.len() && l.len() - close > 1 && l[close
        + 1] == ':'
}

/// Computes `name_len`.
pub fn count_name(l: &Vec<char>, i: usize) -> (r: usize)
    requires
        i <= l.len(),
    ensures
        r == name_len(l@, i as int),
        i + r <= l.len(),
{
    let mut j: usize = i;
    while j < l.len() && (letter(l[j]) || value_of_digit(l[j]).is_some())
        invariant
            i <= j <= l.len(),
            name_len(l@, i as int) == (j - i) + name_len(l@, j as int),
        decreases l.len() - j,
    {
        j += 1;
    }
    j - i
}

/// Computes `is_block_name`.
pub fn block_name(name: &Vec<char>) -> (r: bool)
    ensures
        r == is_block_name(name@),
{
    spells(name, "address") || spells(name, "article") || spells(name, "aside") || spells(
        name,
        "blockquote",
    ) || spells(name, "body") || spells(name, "center") || spells(name, "dd") || spells(
        name,
        "details",
    ) || spells(name, "dialog") || spells(name, "div") || spells(name, "dl") || spells(name, "dt")
        || spells(name, "fieldset") || spells(name, "figcaption") || spells(name, "figure")
        || spells(name, "footer") || spells(name, "form") || spells(name, "h1") || spells(
        name,
        "h2",
    ) || spells(name, "h3") || spells(name, "h4") || spells(name, "h5") || spells(name, "h6")
        || spells(name, "head") || spells(name, "header") || spells(name, "hr") || spells(
        name,
        "html",
    ) || spells(name, "iframe") || spells(name, "li") || spells(name, "link") || spells(
        name,
        "main",
    ) || spells(name, "menu") || spells(name, "nav") || spells(name, "ol") || spells(name, "p")
        || spells(name, "pre") || spells(name, "script") || spells(name, "section") || spells(
        name,
        "style",
    ) || spells(name, "summary") || spells(name, "table") || spells(name, "tbody") || spells(
        name,
        "td",
    ) || spells(name, "tfoot") || spells(name, "th") || spells(name, "thead") || spells(
        name,
        "title",
    ) || spells(name, "tr") || spells(name, "ul")
}

/// Computes `is_html`.
pub fn html_line(l: &Vec<char>) -> (r: bool)
    ensures
        r == is_html(l@),
{
    if l.len() < 2 || l[0] != '<' {
        return false;
    }
    if l[1] == '!' || l[1] == '?' {
        return true;
    }
    let from: usize = if l[1] == '/' {
        2
    } else {
        1
    };
    let n = count_name(l, from);
    if n == 0 {
        return false;
    }
    let name = crate::text::to_lower(&copy_range(l, from, from + n));
    block_name(&name)
}

} // verus!
