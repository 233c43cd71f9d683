//! The closed tag vocabulary: one tag name for each kind of node.

use vstd::prelude::*;
use crate::text::same_chars;

verus! {

/// The kinds of element that the markup knows.
#[derive(Clone, Copy, Debug, PartialEq, Eq, Structural)]
pub enum TagKind {
    Document,
    Paragraph,
    Heading,
    List,
    ListItem,
    BlockQuote,
    CodeBlock,
    Table,
    TableRow,
    TableCell,
    ThematicBreak,
    RawHtmlBlock,
    Emphasis,
    Strong,
    Strikethrough,
    Link,
    Image,
    CodeSpan,
    RawHtmlInline,
    SoftBreak,
    LineBreak,
}

/// The number of kinds.
pub const KIND_COUNT: usize = 21;

impl TagKind {
    /// The position of the kind in the vocabulary.
    pub open spec fn index(self) -> int {
        match self {
            TagKind::Document => 0,
            TagKind::Paragraph => 1,
            TagKind::Heading => 2,
            TagKind::List => 3,
            TagKind::ListItem => 4,
            TagKind::BlockQuote => 5,
            TagKind::CodeBlock => 6,
            TagKind::Table => 7,
            TagKind::TableRow => 8,
            TagKind::TableCell => 9,
            TagKind::ThematicBreak => 10,
            TagKind::RawHtmlBlock => 11,
            TagKind::Emphasis => 12,
            TagKind::Strong => 13,
            TagKind::Strikethrough => 14,
            TagKind::Link => 15,
            TagKind::Image => 16,
            TagKind::CodeSpan => 17,
            TagKind::RawHtmlInline => 18,
            TagKind::SoftBreak => 19,
            TagKind::LineBreak => 20,
        }
    }

    /// The kind at a position of the vocabulary.
    pub open spec fn at(i: int) -> TagKind {
        if i == 0 {
            TagKind::Document
        } else if i == 1 {
            TagKind::Paragraph
        } else if i == 2 {
            TagKind::Heading
        } else if i == 3 {
            TagKind::List
        } else if i == 4 {
            TagKind::ListItem
        } else if i == 5 {
            TagKind::BlockQuote
        } else if i == 6 {
            TagKind::CodeBlock
        } else if i == 7 {
            TagKind::Table
        } else if i == 8 {
            TagKind::TableRow
        } else if i == 9 {
            TagKind::TableCell
        } else if i == 10 {
            TagKind::ThematicBreak
        } else if i == 11 {
            TagKind::RawHtmlBlock
        } else if i == 12 {
            TagKind::Emphasis
        } else if i == 13 {
            TagKind::Strong
        } else if i == 14 {
            TagKind::Strikethrough
        } else if i == 15 {
            TagKind::Link
        } else if i == 16 {
            TagKind::Image
        } else if i == 17 {
            TagKind::CodeSpan
        } else if i == 18 {
            TagKind::RawHtmlInline
        } else if i == 19 {
            TagKind::SoftBreak
        } else {
            TagKind::LineBreak
        }
    }

    /// The tag name of the kind.
    pub open spec fn name(self) -> Seq<char> {
        match self {
            TagKind::Document => seq!['d', 'o', 'c', 'u', 'm', 'e', 'n', 't'],
            TagKind::Paragraph => seq!['p'],
            TagKind::Heading => seq!['h', 'e', 'a', 'd', 'i', 'n', 'g'],
            TagKind::List => seq!['l', 'i', 's', 't'],
            TagKind::ListItem => seq!['l', 'i'],
            TagKind::BlockQuote => seq!['b', 'l', 'o', 'c', 'k', 'q', 'u', 'o', 't', 'e'],
            TagKind::CodeBlock => seq!['p', 'r', 'e'],
            TagKind::Table => seq!['t', 'a', 'b', 'l', 'e'],
            TagKind::TableRow => seq!['t', 'r'],
            TagKind::TableCell => seq!['t', 'd'],
            TagKind::ThematicBreak => seq!['h', 'r'],
            TagKind::RawHtmlBlock => seq!['o', 'b', 'j', 'e', 'c', 't'],
            TagKind::Emphasis => seq!['e', 'm'],
            TagKind::Strong => seq!['s', 't', 'r', 'o', 'n', 'g'],
            TagKind::Strikethrough => seq!['d', 'e', 'l'],
            TagKind::Link => seq!['a'],
            TagKind::Image => seq!['i', 'm', 'g'],
            TagKind::CodeSpan => seq!['c', 'o', 'd', 'e'],
            TagKind::RawHtmlInline => seq!['e', 'm', 'b', 'e', 'd'],
            TagKind::SoftBreak => seq!['s', 'b', 'r'],
            TagKind::LineBreak => seq!['b', 'r'],
        }
    }

    /// A void kind has no content and no closing tag.
    pub open spec fn is_void(self) -> bool {
        self == TagKind::ThematicBreak || self == TagKind::Image || self == TagKind::SoftBreak
            || self == TagKind::LineBreak
    }

    /// The kinds that stand for inline nodes.
    pub open spec fn is_inline(self) -> bool {
        self.index() >= 12
    }

    /// The content of a protected kind is literal text that is never
    /// offered for translation.
    pub open spec fn is_protected(self) -> bool {
        self == TagKind::CodeBlock || self == TagKind::RawHtmlBlock || self == TagKind::CodeSpan
            || self == TagKind::RawHtmlInline
    }

    /// The names of the attributes that a tag of the kind carries, in order.
    pub open spec fn attribute_names(self) -> Seq<Seq<char>> {
        match self {
            TagKind::Heading => seq![seq!['l', 'e', 'v', 'e', 'l']],
            TagKind::List => seq![
                seq!['o', 'r', 'd', 'e', 'r', 'e', 'd'],
                seq!['s', 't', 'a', 'r', 't'],
                seq!['t', 'i', 'g', 'h', 't'],
            ],
            TagKind::CodeBlock => seq![seq!['i', 'n', 'f', 'o']],
            TagKind::Table => seq![seq!['a', 'l', 'i', 'g', 'n']],
            TagKind::TableCell => seq![seq!['h', 'e', 'a', 'd', 'e', 'r']],
            TagKind::Link => seq![seq!['h', 'r', 'e', 'f'], seq!['t', 'i', 't', 'l', 'e']],
            TagKind::Image => seq![
                seq!['s', 'r', 'c'],
                seq!['t', 'i', 't', 'l', 'e'],
                seq!['a', 'l', 't'],
            ],
            _ => Seq::empty(),
        }
    }

    /// Computes `at`.
    pub fn from_index(i: usize) -> (r: TagKind)
        ensures
            r == TagKind::at(i as int),
    {
        if i == 0 {
            TagKind::Document
        } else if i == 1 {
            TagKind::Paragraph
        } else if i == 2 {
            TagKind::Heading
        } else if i == 3 {
            TagKind::List
        } else if i == 4 {
            TagKind::ListItem
        } else if i == 5 {
            TagKind::BlockQuote
        } else if i == 6 {
            TagKind::CodeBlock
        } else if i == 7 {
            TagKind::Table
        } else if i == 8 {
            TagKind::TableRow
        } else if i == 9 {
            TagKind::TableCell
        } else if i == 10 {
            TagKind::ThematicBreak
        } else if i == 11 {
            TagKind::RawHtmlBlock
        } else if i == 12 {
            TagKind::Emphasis
        } else if i == 13 {
            TagKind::Strong
        } else if i == 14 {
            TagKind::Strikethrough
        } else if i == 15 {
            TagKind::Link
        } else if i == 16 {
            TagKind::Image
        } else if i == 17 {
            TagKind::CodeSpan
        } else if i == 18 {
            TagKind::RawHtmlInline
        } else if i == 19 {
            TagKind::SoftBreak
        } else {
            TagKind::LineBreak
        }
    }

    /// Computes `name`.
    pub fn tag_name(&self) -> (r: Vec<char>)
        ensures
            r@ == self.name(),
    {
        let r = match self {
            TagKind::Document => vec!['d', 'o', 'c', 'u', 'm', 'e', 'n', 't'],
            TagKind::Paragraph => vec!['p'],
            TagKind::Heading => vec!['h', 'e', 'a', 'd', 'i', 'n', 'g'],
            TagKind::List => vec!['l', 'i', 's', 't'],
            TagKind::ListItem => vec!['l', 'i'],
            TagKind::BlockQuote => vec!['b', 'l', 'o', 'c', 'k', 'q', 'u', 'o', 't', 'e'],
            TagKind::CodeBlock => vec!['p', 'r', 'e'],
            TagKind::Table => vec!['t', 'a', 'b', 'l', 'e'],
            TagKind::TableRow => vec!['t', 'r'],
            TagKind::TableCell => vec!['t', 'd'],
            TagKind::ThematicBreak => vec!['h', 'r'],
            TagKind::RawHtmlBlock => vec!['o', 'b', 'j', 'e', 'c', 't'],
            TagKind::Emphasis => vec!['e', 'm'],
            TagKind::Strong => vec!['s', 't', 'r', 'o', 'n', 'g'],
            TagKind::Strikethrough => vec!['d', 'e', 'l'],
            TagKind::Link => vec!['a'],
            TagKind::Image => vec!['i', 'm', 'g'],
            TagKind::CodeSpan => vec!['c', 'o', 'd', 'e'],
            TagKind::RawHtmlInline => vec!['e', 'm', 'b', 'e', 'd'],
            TagKind::SoftBreak => vec!['s', 'b', 'r'],
            TagKind::LineBreak => vec!['b', 'r'],
        };
        proof {
            assert(r@ =~= self.name());
        }
        r
    }

    /// Computes `is_void`.
    pub fn void(&self) -> (r: bool)
        ensures
            r == self.is_void(),
    {
        match self {
            TagKind::ThematicBreak | TagKind::Image | TagKind::SoftBreak | TagKind::LineBreak => true,
            _ => false,
        }
    }

    /// Computes `is_inline`.
    pub fn inline(&self) -> (r: bool)
        ensures
            r == self.is_inline(),
    {
        match self {
            TagKind::Emphasis
            | TagKind::Strong
            | TagKind::Strikethrough
            | TagKind::Link
            | TagKind::Image
            | TagKind::CodeSpan
            | TagKind::RawHtmlInline
            | TagKind::SoftBreak
            | TagKind::LineBreak => true,
            _ => false,
        }
    }

    /// Computes `is_protected`.
    pub fn protected(&self) -> (r: bool)
        ensures
            r == self.is_protected(),
    {
        match self {
            TagKind::CodeBlock | TagKind::RawHtmlBlock | TagKind::CodeSpan | TagKind::RawHtmlInline => true,
            _ => false,
        }
    }
}

/// The first kind at or after position `from` of the vocabulary whose name is
/// `name`.
pub open spec fn kind_named_from(name: Seq<char>, from: int) -> Option<TagKind>
    decreases KIND_COUNT - from,
{
    if from < 0 || from >= KIND_COUNT {
        None
    } else if TagKind::at(from).name() == name {
        Some(TagKind::at(from))
    } else {
        kind_named_from(name, from + 1)
    }
}

/// The kind whose tag name is `name`, if the vocabulary has one.
pub open spec fn kind_named(name: Seq<char>) -> Option<TagKind> {
    kind_named_from(name, 0)
}

/// Computes `kind_named`.
pub fn kind_of_name(name: &Vec<char>) -> (r: Option<TagKind>)
    ensures
        r == kind_named(name@),
{
    let mut i: usize = 0;
    while i < KIND_COUNT
        invariant
            i <= KIND_COUNT,
            kind_named(name@) == kind_named_from(name@, i as int),
        decreases KIND_COUNT - i,
    {
        let kind = TagKind::from_index(i);
        let candidate = kind.tag_name();
        if same_chars(&candidate, name) {
            return Some(kind);
        }
        i += 1;
    }
    None
}

/// Every kind is found again by its name: no two kinds share one.
#[verifier::rlimit(40)]
pub proof fn lemma_kind_named(kind: TagKind)
    ensures
        kind_named(kind.name()) == Some(kind),
{
    reveal_with_fuel(kind_named_from, 22);
    let n = kind.name();
    assert forall|i: int| 0 <= i < kind.index() implies TagKind::at(i).name() != n by {
        let m = TagKind::at(i).name();
        if m.len() == n.len() {
            assert(m[0] != n[0] || m[1] != n[1]);
        }
    }
    assert(TagKind::at(kind.index()) == kind);
}

} // verus!
