//! The CommonMark AST: node values and their metadata.

use std::convert::From;
use vstd::prelude::*;

use crate::arena_tree::{Arena, Id, Node};
use crate::text::{decimal, push_char, push_decimal};

pub use crate::parser::math::NodeMath;
pub use crate::parser::multiline_block_quote::NodeMultilineBlockQuote;
pub use crate::parser::shortcodes::NodeShortCode;

verus! {

/// The core AST node enum.
#[derive(Debug, Clone, PartialEq, Eq)]
pub enum NodeValue {
    /// The root of every CommonMark document.  Contains **blocks**.
    Document,
    /// Non-Markdown front matter.  Treated as an opaque blob.
    FrontMatter(String),
    /// **Block**. A block quote.  Contains other **blocks**.
    BlockQuote,
    /// **Block**.  A list.  Contains list items.
    List(NodeList),
    /// **Block**.  A list item.  Contains other **blocks**.
    Item(NodeList),
    /// **Block**. A description list.  Contains description items.
    DescriptionList,
    /// **Block**. An item of a description list.  Contains a term and one details block.
    DescriptionItem(NodeDescriptionItem),
    /// **Block**. Term of an item in a definition list.
    DescriptionTerm,
    /// **Block**. Details of an item in a definition list.
    DescriptionDetails,
    /// **Block**. A code block, fenced or indented.  Contains raw text.
    CodeBlock(NodeCodeBlock),
    /// **Block**. An HTML block.  Contains raw text.
    HtmlBlock(NodeHtmlBlock),
    /// **Block**. A paragraph.  Contains **inlines**.
    Paragraph,
    /// **Block**. An ATX or setext heading.  Contains **inlines**.
    Heading(NodeHeading),
    /// **Block**. A thematic break.  Has no children.
    ThematicBreak,
    /// **Block**. A footnote definition.  Contains other **blocks**.
    FootnoteDefinition(NodeFootnoteDefinition),
    /// **Block**. A table per the GFM spec.  Contains table rows.
    Table(NodeTable),
    /// **Block**. A table row; `true` for the header row.  Contains table cells.
    TableRow(bool),
    /// **Block**.  A table cell.  Contains **inlines**.
    TableCell,
    /// **Inline**.  Textual content.
    Text(String),
    /// **Block**. A task list item; the symbol that checked it, if any.
    TaskItem(Option<char>),
    /// **Inline**.  A soft line break.
    SoftBreak,
    /// **Inline**.  A hard line break.
    LineBreak,
    /// **Inline**.  A code span.
    Code(NodeCode),
    /// **Inline**.  Raw HTML contained inline.
    HtmlInline(String),
    /// **Inline**.  Emphasized text.
    Emph,
    /// **Inline**.  Strong text.
    Strong,
    /// **Inline**.  Strikethrough text per the GFM spec.
    Strikethrough,
    /// **Inline**.  Superscript.
    Superscript,
    /// **Inline**.  A link to some URL, with possible title.
    Link(NodeLink),
    /// **Inline**.  An image.
    Image(NodeLink),
    /// **Inline**.  A footnote reference.
    FootnoteReference(NodeFootnoteReference),
    /// **Inline**. An emoji character generated from a shortcode.
    ShortCode(NodeShortCode),
    /// **Inline**. A math span, dollar math or code math.
    Math(NodeMath),
    /// **Block**. A multiline block quote.  Contains other **blocks**.
    MultilineBlockQuote(NodeMultilineBlockQuote),
    /// **Inline**.  A character that has been escaped.
    Escaped,
    /// **Inline**.  A wikilink to some URL.
    WikiLink(NodeWikiLink),
    /// **Inline**.  Underline.
    Underline,
    /// **Inline**.  Subscript.
    Subscript,
    /// **Inline**.  Spoilered text.
    SpoileredText,
    /// **Inline**. Text surrounded by escaped markup; the tag to be escaped.
    EscapedTag(String),
}

/// Alignment of a single table cell.
#[derive(Debug, Copy, Clone, PartialEq, Eq, Structural)]
pub enum TableAlignment {
    /// Cell content is unaligned.
    Unaligned,
    /// Cell content is aligned left.
    Left,
    /// Cell content is centered.
    Center,
    /// Cell content is aligned right.
    Right,
}

impl TableAlignment {
    /// The name of the alignment in XML output, if it has one.
    pub fn xml_name(&self) -> (r: Option<&'static str>)
        ensures
            *self == TableAlignment::Unaligned <==> r is None,
            *self == TableAlignment::Left ==> (r matches Some(s) && s@ == "left"@),
            *self == TableAlignment::Center ==> (r matches Some(s) && s@ == "center"@),
            *self == TableAlignment::Right ==> (r matches Some(s) && s@ == "right"@),
    {
        match *self {
            TableAlignment::Unaligned => None,
            TableAlignment::Left => Some("left"),
            TableAlignment::Center => Some("center"),
            TableAlignment::Right => Some("right"),
        }
    }
}

/// The metadata of a table
#[derive(Debug, Default, Clone, PartialEq, Eq)]
pub struct NodeTable {
    /// The table alignments
    pub alignments: Vec<TableAlignment>,
    /// Number of columns of the table
    pub num_columns: usize,
    /// Number of rows of the table
    pub num_rows: usize,
    /// Number of non-empty, non-autocompleted cells
    pub num_nonempty_cells: usize,
}

/// An inline code span.
#[derive(Debug, Clone, PartialEq, Eq)]
pub struct NodeCode {
    /// The number of backticks
    pub num_backticks: usize,
    /// The content of the inline code span.
    pub literal: String,
}

/// The details of a link's destination, or an image's source.
#[derive(Debug, Clone, PartialEq, Eq)]
pub struct NodeLink {
    /// The URL for the link destination or image source.
    pub url: String,
    /// The title for the link or image.
    pub title: String,
}

/// The details of a wikilink's destination.
#[derive(Debug, Clone, PartialEq, Eq)]
pub struct NodeWikiLink {
    /// The URL for the link destination.
    pub url: String,
}

/// The metadata of a list; the kind of list, the delimiter used and so on.
#[derive(Debug, Default, Clone, Copy, PartialEq, Eq, Structural)]
pub struct NodeList {
    /// The kind of list (bullet (unordered) or ordered).
    pub list_type: ListType,
    /// Number of spaces before the list marker.
    pub marker_offset: usize,
    /// Number of characters between the start of the list marker and the item text.
    pub padding: usize,
    /// For ordered lists, the ordinal the list starts at.
    pub start: usize,
    /// For ordered lists, the delimiter after each number.
    pub delimiter: ListDelimType,
    /// For bullet lists, the character used for each bullet.
    pub bullet_char: u8,
    /// Whether the list is tight.
    pub tight: bool,
    /// Whether the list contains tasks (checkbox items)
    pub is_task_list: bool,
}

/// The metadata of a description list
#[derive(Debug, Default, Clone, Copy, PartialEq, Eq, Structural)]
pub struct NodeDescriptionItem {
    /// Number of spaces before the list marker.
    pub marker_offset: usize,
    /// Number of characters between the start of the list marker and the item text.
    pub padding: usize,
    /// Whether the list is tight.
    pub tight: bool,
}

/// The type of list.
#[derive(Debug, Clone, Copy, PartialEq, Eq, Structural, Default)]
pub enum ListType {
    /// A bullet list, i.e. an unordered list.
    #[default]
    Bullet,
    /// An ordered list.
    Ordered,
}

/// The delimiter for ordered lists, i.e. the character which appears after each number.
#[derive(Debug, Clone, Copy, PartialEq, Eq, Structural, Default)]
pub enum ListDelimType {
    /// A period character `.`.
    #[default]
    Period,
    /// A paren character `)`.
    Paren,
}

impl ListDelimType {
    /// The name of the delimiter in XML output.
    pub fn xml_name(&self) -> (r: &'static str)
        ensures
            *self == ListDelimType::Period ==> r@ == "period"@,
            *self == ListDelimType::Paren ==> r@ == "paren"@,
    {
        match *self {
            ListDelimType::Period => "period",
            ListDelimType::Paren => "paren",
        }
    }
}

/// The metadata and data of a code block (fenced or indented).
#[derive(Default, Debug, Clone, PartialEq, Eq)]
pub struct NodeCodeBlock {
    /// Whether the code block is fenced.
    pub fenced: bool,
    /// For fenced code blocks, the fence character itself (`` ` `` or `~`).
    pub fence_char: u8,
    /// For fenced code blocks, the length of the fence.
    pub fence_length: usize,
    /// For fenced code blocks, the indentation level of the code within the block.
    pub fence_offset: usize,
    /// For fenced code blocks, the info string after the opening fence, if any.
    pub info: String,
    /// The literal contents of the code block.
    pub literal: String,
}

/// The metadata of a heading.
#[derive(Default, Debug, Clone, Copy, PartialEq, Eq, Structural)]
pub struct NodeHeading {
    /// The level of the header; from 1 to 6 for ATX headings, 1 or 2 for setext headings.
    pub level: u8,
    /// Whether the heading is setext (if not, ATX).
    pub setext: bool,
}

/// The metadata of an included HTML block.
#[derive(Debug, Default, Clone, PartialEq, Eq)]
pub struct NodeHtmlBlock {
    /// The HTML block's type
    pub block_type: u8,
    /// The literal contents of the HTML block.
    pub literal: String,
}

/// The metadata of a footnote definition.
#[derive(Debug, Default, Clone, PartialEq, Eq)]
pub struct NodeFootnoteDefinition {
    /// The name of the footnote.
    pub name: String,
    /// Total number of references to this footnote
    pub total_references: u32,
}

/// The metadata of a footnote reference.
#[derive(Debug, Default, Clone, PartialEq, Eq)]
pub struct NodeFootnoteReference {
    /// The name of the footnote.
    pub name: String,
    /// The index of reference to the same footnote
    pub ref_num: u32,
    /// The index of the footnote in the document.
    pub ix: u32,
}

/// Whether a node value is a block (rather than an inline).
pub open spec fn is_block(v: NodeValue) -> bool {
    v is Document
        || v is BlockQuote
        || v is FootnoteDefinition
        || v is List
        || v is DescriptionList
        || v is DescriptionItem
        || v is DescriptionTerm
        || v is DescriptionDetails
        || v is Item
        || v is CodeBlock
        || v is HtmlBlock
        || v is Paragraph
        || v is Heading
        || v is ThematicBreak
        || v is Table
        || v is TableRow
        || v is TableCell
        || v is TaskItem
        || v is MultilineBlockQuote
}

/// Whether a node value can hold inlines.
pub open spec fn holds_inlines(v: NodeValue) -> bool {
    v is Paragraph || v is Heading || v is TableCell
}

/// Whether a node value takes lines of the source as content.
pub open spec fn takes_lines(v: NodeValue) -> bool {
    v is Paragraph || v is Heading || v is CodeBlock
}

/// The name of a node value in XML output.
pub open spec fn xml_node_name_spec(v: NodeValue) -> Seq<char> {
    match v {
        NodeValue::Document => "document"@,
        NodeValue::FrontMatter(..) => "frontmatter"@,
        NodeValue::BlockQuote => "block_quote"@,
        NodeValue::List(..) => "list"@,
        NodeValue::Item(..) => "item"@,
        NodeValue::DescriptionList => "description_list"@,
        NodeValue::DescriptionItem(..) => "description_item"@,
        NodeValue::DescriptionTerm => "description_term"@,
        NodeValue::DescriptionDetails => "description_details"@,
        NodeValue::CodeBlock(..) => "code_block"@,
        NodeValue::HtmlBlock(..) => "html_block"@,
        NodeValue::Paragraph => "paragraph"@,
        NodeValue::Heading(..) => "heading"@,
        NodeValue::ThematicBreak => "thematic_break"@,
        NodeValue::FootnoteDefinition(..) => "footnote_definition"@,
        NodeValue::Table(..) => "table"@,
        NodeValue::TableRow(..) => "table_row"@,
        NodeValue::TableCell => "table_cell"@,
        NodeValue::Text(..) => "text"@,
        NodeValue::TaskItem(..) => "taskitem"@,
        NodeValue::SoftBreak => "softbreak"@,
        NodeValue::LineBreak => "linebreak"@,
        NodeValue::Code(..) => "code"@,
        NodeValue::HtmlInline(..) => "html_inline"@,
        NodeValue::Emph => "emph"@,
        NodeValue::Strong => "strong"@,
        NodeValue::Strikethrough => "strikethrough"@,
        NodeValue::Superscript => "superscript"@,
        NodeValue::Link(..) => "link"@,
        NodeValue::Image(..) => "image"@,
        NodeValue::FootnoteReference(..) => "footnote_reference"@,
        NodeValue::ShortCode(..) => "shortcode"@,
        NodeValue::Math(..) => "math"@,
        NodeValue::MultilineBlockQuote(..) => "multiline_block_quote"@,
        NodeValue::Escaped => "escaped"@,
        NodeValue::WikiLink(..) => "wikilink"@,
        NodeValue::Underline => "underline"@,
        NodeValue::Subscript => "subscript"@,
        NodeValue::SpoileredText => "spoiler"@,
        NodeValue::EscapedTag(..) => "escaped_tag"@,
    }
}

impl NodeValue {
    /// Indicates whether this node is a block node or inline node.
    pub fn block(&self) -> (r: bool)
        ensures
            r == is_block(*self),
    {
        matches!(
            *self,
            NodeValue::Document
                | NodeValue::BlockQuote
                | NodeValue::FootnoteDefinition(..)
                | NodeValue::List(..)
                | NodeValue::DescriptionList
                | NodeValue::DescriptionItem(..)
                | NodeValue::DescriptionTerm
                | NodeValue::DescriptionDetails
                | NodeValue::Item(..)
                | NodeValue::CodeBlock(..)
                | NodeValue::HtmlBlock(..)
                | NodeValue::Paragraph
                | NodeValue::Heading(..)
                | NodeValue::ThematicBreak
                | NodeValue::Table(..)
                | NodeValue::TableRow(..)
                | NodeValue::TableCell
                | NodeValue::TaskItem(..)
                | NodeValue::MultilineBlockQuote(..)
        )
    }

    /// Whether the type the node is of can contain inline nodes.
    pub fn contains_inlines(&self) -> (r: bool)
        ensures
            r == holds_inlines(*self),
    {
        matches!(*self, NodeValue::Paragraph | NodeValue::Heading(..) | NodeValue::TableCell)
    }

    /// Return a reference to the text of a `Text` inline, if this node is one.
    pub fn text(&self) -> (r: Option<&String>)
        ensures
            *self is Text ==> (r matches Some(t) && *t == self->Text_0),
            !(*self is Text) ==> r is None,
    {
        match self {
            NodeValue::Text(t) => Some(t),
            _ => None,
        }
    }

    /// Return a mutable reference to the text of a `Text` inline, if this node is one.
    pub fn text_mut(&mut self) -> (r: Option<&mut String>)
        ensures
            *old(self) is Text ==> (r matches Some(t) && *t == old(self)->Text_0 && *final(self)
                == NodeValue::Text(*final(t))),
            !(*old(self) is Text) ==> r is None && *final(self) == *old(self),
    {
        match self {
            NodeValue::Text(t) => Some(t),
            _ => None,
        }
    }

    /// Whether the node takes lines of the source as its content.
    pub fn accepts_lines(&self) -> (r: bool)
        ensures
            r == takes_lines(*self),
    {
        matches!(*self, NodeValue::Paragraph | NodeValue::Heading(..) | NodeValue::CodeBlock(..))
    }

    /// The name of the node in XML output.
    pub fn xml_node_name(&self) -> (r: &'static str)
        ensures
            r@ == xml_node_name_spec(*self),
    {
        match *self {
            NodeValue::Document => "document",
            NodeValue::FrontMatter(..) => "frontmatter",
            NodeValue::BlockQuote => "block_quote",
            NodeValue::List(..) => "list",
            NodeValue::Item(..) => "item",
            NodeValue::DescriptionList => "description_list",
            NodeValue::DescriptionItem(..) => "description_item",
            NodeValue::DescriptionTerm => "description_term",
            NodeValue::DescriptionDetails => "description_details",
            NodeValue::CodeBlock(..) => "code_block",
            NodeValue::HtmlBlock(..) => "html_block",
            NodeValue::Paragraph => "paragraph",
            NodeValue::Heading(..) => "heading",
            NodeValue::ThematicBreak => "thematic_break",
            NodeValue::FootnoteDefinition(..) => "footnote_definition",
            NodeValue::Table(..) => "table",
            NodeValue::TableRow(..) => "table_row",
            NodeValue::TableCell => "table_cell",
            NodeValue::Text(..) => "text",
            NodeValue::TaskItem(..) => "taskitem",
            NodeValue::SoftBreak => "softbreak",
            NodeValue::LineBreak => "linebreak",
            NodeValue::Code(..) => "code",
            NodeValue::HtmlInline(..) => "html_inline",
            NodeValue::Emph => "emph",
            NodeValue::Strong => "strong",
            NodeValue::Strikethrough => "strikethrough",
            NodeValue::Superscript => "superscript",
            NodeValue::Link(..) => "link",
            NodeValue::Image(..) => "image",
            NodeValue::FootnoteReference(..) => "footnote_reference",
            NodeValue::ShortCode(..) => "shortcode",
            NodeValue::Math(..) => "math",
            NodeValue::MultilineBlockQuote(..) => "multiline_block_quote",
            NodeValue::Escaped => "escaped",
            NodeValue::WikiLink(..) => "wikilink",
            NodeValue::Underline => "underline",
            NodeValue::Subscript => "subscript",
            NodeValue::SpoileredText => "spoiler",
            NodeValue::EscapedTag(..) => "escaped_tag",
        }
    }
}

/// Whether a node with value `parent` may have a child with value `child`.
pub open spec fn can_contain_spec(parent: NodeValue, child: NodeValue) -> bool {
    if child is Document {
        false
    } else if child is FrontMatter {
        parent is Document
    } else if parent is Document
        || parent is BlockQuote
        || parent is FootnoteDefinition
        || parent is DescriptionTerm
        || parent is DescriptionDetails
        || parent is Item
        || parent is TaskItem
        || parent is MultilineBlockQuote {
        is_block(child) && !(child is Item || child is TaskItem)
    } else if parent is List {
        child is Item || child is TaskItem
    } else if parent is DescriptionList {
        child is DescriptionItem
    } else if parent is DescriptionItem {
        child is DescriptionTerm || child is DescriptionDetails
    } else if parent is Paragraph
        || parent is Heading
        || parent is Emph
        || parent is Strong
        || parent is Link
        || parent is Image
        || parent is WikiLink
        || parent is Strikethrough
        || parent is Superscript
        || parent is SpoileredText
        || parent is Underline
        || parent is Subscript
        || parent is EscapedTag
        || parent is ShortCode {
        !is_block(child)
    } else if parent is Table {
        child is TableRow
    } else if parent is TableRow {
        child is TableCell
    } else if parent is TableCell {
        child is Text
        || child is Code
        || child is Emph
        || child is Strong
        || child is Link
        || child is Image
        || child is Strikethrough
        || child is HtmlInline
        || child is Math
        || child is WikiLink
        || child is FootnoteReference
        || child is Superscript
        || child is SpoileredText
        || child is Underline
        || child is Subscript
        || child is ShortCode
    } else {
        false
    }
}

/// Returns true if a node with value `node` can contain a node with the
/// given value.
pub fn can_contain_type(node: &NodeValue, child: &NodeValue) -> (r: bool)
    ensures
        r == can_contain_spec(*node, *child),
{
    match *child {
        NodeValue::Document => {
            return false;
        },
        NodeValue::FrontMatter(_) => {
            return matches!(*node, NodeValue::Document);
        },
        _ => {},
    }
    match *node {
        NodeValue::Document
                | NodeValue::BlockQuote
                | NodeValue::FootnoteDefinition(..)
                | NodeValue::DescriptionTerm
                | NodeValue::DescriptionDetails
                | NodeValue::Item(..)
                | NodeValue::TaskItem(..)
                | NodeValue::MultilineBlockQuote(..) => {
            child.block() && !matches!(*child, NodeValue::Item(..) | NodeValue::TaskItem(..))
        },
        NodeValue::List(..) => matches!(*child, NodeValue::Item(..) | NodeValue::TaskItem(..)),
        NodeValue::DescriptionList => matches!(*child, NodeValue::DescriptionItem(_)),
        NodeValue::DescriptionItem(_) => matches!(
            *child,
            NodeValue::DescriptionTerm | NodeValue::DescriptionDetails
        ),
        NodeValue::Paragraph
                | NodeValue::Heading(..)
                | NodeValue::Emph
                | NodeValue::Strong
                | NodeValue::Link(..)
                | NodeValue::Image(..)
                | NodeValue::WikiLink(..)
                | NodeValue::Strikethrough
                | NodeValue::Superscript
                | NodeValue::SpoileredText
                | NodeValue::Underline
                | NodeValue::Subscript
                | NodeValue::EscapedTag(..)
                | NodeValue::ShortCode(..) => !child.block(),
        NodeValue::Table(..) => matches!(*child, NodeValue::TableRow(..)),
        NodeValue::TableRow(..) => matches!(*child, NodeValue::TableCell),
        NodeValue::TableCell => matches!(
            *child,
            NodeValue::Text(..)
                | NodeValue::Code(..)
                | NodeValue::Emph
                | NodeValue::Strong
                | NodeValue::Link(..)
                | NodeValue::Image(..)
                | NodeValue::Strikethrough
                | NodeValue::HtmlInline(..)
                | NodeValue::Math(..)
                | NodeValue::WikiLink(..)
                | NodeValue::FootnoteReference(..)
                | NodeValue::Superscript
                | NodeValue::SpoileredText
                | NodeValue::Underline
                | NodeValue::Subscript
                | NodeValue::ShortCode(..)
        ),
        _ => false,
    }
}

/// Represents the 1-based line and column positions of a given character.
#[derive(Default, Debug, Clone, Copy, PartialEq, Eq, Structural, PartialOrd, Ord)]
pub struct LineColumn {
    /// The 1-based line number of the character.
    pub line: usize,
    /// The 1-based column number of the character.
    pub column: usize,
}

/// Represents the position in the source Markdown this node was rendered from.
#[derive(Debug, Clone, Copy, PartialEq, Eq, Structural, PartialOrd, Ord)]
pub struct Sourcepos {
    /// The line and column of the first character of this node.
    pub start: LineColumn,
    /// The line and column of the last character of this node.
    pub end: LineColumn,
}

impl Sourcepos {
    /// The position as text: `line:column-line:column`.
    pub fn to_display_string(&self) -> (r: String)
        ensures
            r@ == decimal(self.start.line as nat) + seq![':'] + decimal(self.start.column as nat)
                + seq!['-'] + decimal(self.end.line as nat) + seq![':'] + decimal(
                self.end.column as nat,
            ),
    {
        let mut s = String::new();
        push_decimal(&mut s, self.start.line);
        push_char(&mut s, ':');
        push_decimal(&mut s, self.start.column);
        push_char(&mut s, '-');
        push_decimal(&mut s, self.end.line);
        push_char(&mut s, ':');
        push_decimal(&mut s, self.end.column);
        proof {
            assert(s@ =~= decimal(self.start.line as nat) + seq![':'] + decimal(
                self.start.column as nat,
            ) + seq!['-'] + decimal(self.end.line as nat) + seq![':'] + decimal(
                self.end.column as nat,
            ));
        }
        s
    }
}

impl From<(usize, usize, usize, usize)> for Sourcepos {
    fn from(sp: (usize, usize, usize, usize)) -> (r: Sourcepos)
        ensures
            r == (Sourcepos {
                start: LineColumn { line: sp.0, column: sp.1 },
                end: LineColumn { line: sp.2, column: sp.3 },
            }),
    {
        Sourcepos {
            start: LineColumn { line: sp.0, column: sp.1 },
            end: LineColumn { line: sp.2, column: sp.3 },
        }
    }
}

impl vstd::std_specs::convert::FromSpecImpl<(usize, usize, usize, usize)> for Sourcepos {
    open spec fn obeys_from_spec() -> bool {
        true
    }

    open spec fn from_spec(sp: (usize, usize, usize, usize)) -> Sourcepos {
        Sourcepos {
            start: LineColumn { line: sp.0, column: sp.1 },
            end: LineColumn { line: sp.2, column: sp.3 },
        }
    }
}

impl From<(usize, usize)> for LineColumn {
    fn from(lc: (usize, usize)) -> (r: LineColumn)
        ensures
            r == (LineColumn { line: lc.0, column: lc.1 }),
    {
        LineColumn { line: lc.0, column: lc.1 }
    }
}

impl vstd::std_specs::convert::FromSpecImpl<(usize, usize)> for LineColumn {
    open spec fn obeys_from_spec() -> bool {
        true
    }

    open spec fn from_spec(lc: (usize, usize)) -> LineColumn {
        LineColumn { line: lc.0, column: lc.1 }
    }
}

impl LineColumn {
    /// Return a new LineColumn based on this one, with the column adjusted by offset.
    pub fn column_add(&self, offset: isize) -> (r: LineColumn)
        requires
            self.column <= isize::MAX,
            0 <= self.column + offset <= isize::MAX,
        ensures
            r.line == self.line,
            r.column == self.column + offset,
    {
        let c = (self.column as isize) + offset;
        LineColumn { line: self.line, column: c as usize }
    }
}

/// A single node in the CommonMark AST.
#[derive(Debug, Clone, PartialEq, Eq)]
pub struct Ast {
    /// The node value itself.
    pub value: NodeValue,
    /// The positions in the source document this node comes from.
    pub sourcepos: Sourcepos,
    /// Offset of the node's content from the start of its first line.
    pub internal_offset: usize,
    /// The text of a block while it is being parsed.
    pub content: String,
    /// Whether the block is still open to further lines.
    pub open: bool,
    /// Whether the last line of the block was blank.
    pub last_line_blank: bool,
    /// Whether table processing has visited the node.
    pub table_visited: bool,
    /// The offsets of the lines that make up the content.
    pub line_offsets: Vec<usize>,
}

impl Ast {
    /// Create a new AST node with the given value.
    pub fn new(value: NodeValue, start: LineColumn) -> (r: Self)
        ensures
            r.value == value,
            r.sourcepos == (Sourcepos {
                start: start,
                end: LineColumn { line: start.line, column: 0 },
            }),
            r.internal_offset == 0,
            r.content@ == Seq::<char>::empty(),
            r.open,
            !r.last_line_blank,
            !r.table_visited,
            r.line_offsets@ == Seq::<usize>::empty(),
    {
        Ast {
            value,
            content: String::new(),
            sourcepos: Sourcepos {
                start: LineColumn { line: start.line, column: start.column },
                end: LineColumn { line: start.line, column: 0 },
            },
            internal_offset: 0,
            open: true,
            last_line_blank: false,
            table_visited: false,
            line_offsets: Vec::new(),
        }
    }
}


/// Validation errors produced by [validate].
#[derive(Debug, Clone)]
pub enum ValidationError {
    /// The type of a child node is not allowed in the parent node. This can
    /// happen when an inline node is found in a block container, a block is
    /// found in an inline node, etc.
    InvalidChildType {
        /// The parent node.
        parent: Id,
        /// The child node.
        child: Id,
    },
}

/// The ids met from `from` on along next-sibling links, in at most `fuel`
/// steps; `None` when the run is longer than that.
pub open spec fn sibling_run(n: Seq<Node<Ast>>, from: Option<Id>, fuel: nat) -> Option<Seq<usize>>
    decreases fuel,
{
    match from {
        None => Some(seq![]),
        Some(c) => {
            if fuel == 0 || c.0 >= n.len() {
                None
            } else {
                match sibling_run(n, n[c.0 as int].next_link(), (fuel - 1) as nat) {
                    Some(rest) => Some(seq![c.0] + rest),
                    None => None,
                }
            }
        },
    }
}

/// Whether node `x` may stand where it stands: it has no parent, or its
/// parent can contain it.
pub open spec fn placed_ok(n: Seq<Node<Ast>>, x: int) -> bool {
    match n[x].parent_link() {
        Some(p) => can_contain_spec(n[p.0 as int].value().value, n[x].value().value),
        None => true,
    }
}

/// The outcome of validating the nodes on `stack` and below them, taking
/// the last one first and pushing its children in order, in at most `fuel`
/// steps: the first node met that its parent cannot contain, as
/// `(parent, child)`.
pub open spec fn validate_walk(n: Seq<Node<Ast>>, stack: Seq<usize>, fuel: nat) -> Option<Result<(), (usize, usize)>>
    decreases fuel,
{
    if stack.len() == 0 {
        Some(Ok(()))
    } else if fuel == 0 {
        None
    } else {
        let x = stack.last() as int;
        if !placed_ok(n, x) {
            Some(Err((n[x].parent_link().unwrap().0, stack.last())))
        } else {
            match sibling_run(n, n[x].first_link(), n.len()) {
                Some(kids) => validate_walk(n, stack.drop_last() + kids, (fuel - 1) as nat),
                None => None,
            }
        }
    }
}

proof fn lemma_sibling_run_in_range(n: Seq<Node<Ast>>, from: Option<Id>, fuel: nat)
    ensures
        sibling_run(n, from, fuel) matches Some(ids) ==> forall|i: int| 0 <= i < ids.len() ==> ids[i] < n.len(),
    decreases fuel,
{
    if let Some(c) = from {
        if fuel > 0 && c.0 < n.len() {
            lemma_sibling_run_in_range(n, n[c.0 as int].next_link(), (fuel - 1) as nat);
            if let Some(rest) = sibling_run(n, n[c.0 as int].next_link(), (fuel - 1) as nat) {
                let ids = seq![c.0] + rest;
                assert forall|i: int| 0 <= i < ids.len() implies ids[i] < n.len() by {
                    if i > 0 {
                        assert(ids[i] == rest[i - 1]);
                    }
                }
            }
        }
    }
}

/// A node that validation reports is one that its parent, the node reported
/// beside it, cannot contain.
pub proof fn lemma_reported_child_misplaced(n: Seq<Node<Ast>>, stack: Seq<usize>, fuel: nat)
    requires
        forall|i: int| 0 <= i < stack.len() ==> stack[i] < n.len(),
    ensures
        validate_walk(n, stack, fuel) matches Some(Err((p, c))) ==> c < n.len() && n[c as int].parent_link()
            == Some(Id(p)) && !can_contain_spec(n[p as int].value().value, n[c as int].value().value),
    decreases fuel,
{
    if stack.len() > 0 && fuel > 0 {
        let x = stack.last() as int;
        if placed_ok(n, x) {
            lemma_sibling_run_in_range(n, n[x].first_link(), n.len());
            if let Some(kids) = sibling_run(n, n[x].first_link(), n.len()) {
                let next = stack.drop_last() + kids;
                assert forall|i: int| 0 <= i < next.len() implies next[i] < n.len() by {
                    if i >= stack.len() - 1 {
                        assert(next[i] == kids[i - (stack.len() - 1)]);
                    }
                }
                lemma_reported_child_misplaced(n, next, (fuel - 1) as nat);
            }
        }
    }
}

/// Checks that every node of the tree under `root`, `root` included, may
/// be contained by its parent (see [can_contain_type]).  Trees built by the
/// parser always are; trees built by hand may not be.
pub fn validate(arena: &Arena<Ast>, root: Id) -> (r: Result<(), ValidationError>)
    requires
        arena.wf(),
        root.0 < arena.nodes().len(),
        validate_walk(arena.nodes(), seq![root.0], arena.nodes().len() as nat) is Some,
    ensures
        match validate_walk(arena.nodes(), seq![root.0], arena.nodes().len() as nat) {
            Some(Ok(())) => r is Ok,
            Some(Err((p, c))) => r == Err::<(), ValidationError>(ValidationError::InvalidChildType { parent: Id(p), child: Id(c) }),
            None => false,
        },
        r matches Err(ValidationError::InvalidChildType { parent, child }) ==> child.0 < arena.nodes().len()
            && arena.nodes()[child.0 as int].parent_link() == Some(parent) && !can_contain_spec(
            arena.nodes()[parent.0 as int].value().value,
            arena.nodes()[child.0 as int].value().value,
        ),
{
    let ghost n = arena.nodes();
    proof {
        lemma_reported_child_misplaced(n, seq![root.0], n.len() as nat);
    }
    let ghost total = validate_walk(n, seq![root.0], n.len() as nat);
    let mut stack: Vec<usize> = Vec::new();
    stack.push(root.0);
    let mut fuel: usize = arena.len();
    while stack.len() > 0
        invariant
            arena.wf(),
            n == arena.nodes(),
            n.len() <= usize::MAX,
            fuel <= n.len(),
            validate_walk(n, stack@, fuel as nat) == total,
            total == validate_walk(n, seq![root.0], n.len() as nat),
            total is Some,
            forall|i: int| 0 <= i < stack@.len() ==> stack@[i] < n.len(),
        decreases fuel,
    {
        let ghost st = stack@;
        let x = stack.pop().unwrap();
        let xid = Id(x);
        proof {
            crate::arena_tree::lemma_places(*arena, xid);
            assert(x == st.last() && stack@ =~= st.drop_last());
            assert(fuel > 0);
        }
        match xid.parent(arena) {
            Some(p) => {
                if !can_contain_type(&p.data(arena).value, &xid.data(arena).value) {
                    assert(!placed_ok(n, x as int));
                    assert(total == Some(Err::<(), (usize, usize)>((p.0, x))));
                    return Err(ValidationError::InvalidChildType { parent: p, child: xid });
                }
            },
            None => {},
        }
        let ghost rest = stack@;
        let ghost kids = sibling_run(n, n[x as int].first_link(), n.len() as nat).unwrap();
        let mut cur = xid.first_child(arena);
        let mut k: usize = 0;
        while cur.is_some()
            invariant
                arena.wf(),
                n == arena.nodes(),
                n.len() <= usize::MAX,
                k <= n.len(),
                k <= kids.len(),
                sibling_run(n, cur, (n.len() - k) as nat) == Some(kids.subrange(k as int, kids.len() as int)),
                stack@ == rest + kids.subrange(0, k as int),
                forall|i: int| 0 <= i < rest.len() ==> rest[i] < n.len(),
                forall|i: int| 0 <= i < stack@.len() ==> stack@[i] < n.len(),
            decreases n.len() - k,
        {
            let c = cur.unwrap();
            proof {
                let tail = kids.subrange(k as int, kids.len() as int);
                let f = (n.len() - k) as nat;
                assert(sibling_run(n, Some(c), f) == match sibling_run(n, n[c.0 as int].next_link(), (f - 1) as nat) {
                    Some(rest) => Some(seq![c.0] + rest),
                    None => None::<Seq<usize>>,
                });
                assert(tail.len() >= 1);
            }
            stack.push(c.0);
            proof {
                assert(kids.subrange(k as int, kids.len() as int)[0] == c.0);
                assert(kids.subrange(0, k + 1) =~= kids.subrange(0, k as int).push(c.0));
                assert(kids.subrange(k + 1, kids.len() as int) =~= kids.subrange(k as int, kids.len() as int).drop_first());
            }
            cur = c.next_sibling(arena);
            k = k + 1;
        }
        proof {
            assert(kids.subrange(0, k as int) =~= kids);
        }
        fuel = fuel - 1;
    }
    Ok(())
}

} // verus!
