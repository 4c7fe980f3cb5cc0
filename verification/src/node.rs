//! Block and inline node values of the line-oriented block parser.

use vstd::prelude::*;

verus! {

/// The kind of a node, with its data.
#[derive(Debug, Clone)]
pub enum NodeVal {
    Document,
    BlockQuote,
    List,
    Item,
    CodeBlock(NodeCodeBlock),
    HtmlBlock(u8),
    CustomBlock,
    Paragraph,
    Heading(NodeHeading),
    ThematicBreak,
    Text(Vec<u8>),
    SoftBreak,
    LineBreak,
    Code,
    HtmlInline,
    CustomInline,
    Emph,
    Strong,
    Link,
    Image,
}

/// The details of a code block.
#[derive(Default, Debug, Clone)]
pub struct NodeCodeBlock {
    pub fenced: bool,
    pub fence_char: u8,
    pub fence_length: usize,
    pub fence_offset: usize,
    pub info: String,
}

/// The details of a heading.
#[derive(Default, Debug, Clone, Copy)]
pub struct NodeHeading {
    pub level: u32,
    pub setext: bool,
}

/// Whether a node value is a block.
pub open spec fn val_is_block(v: NodeVal) -> bool {
    v is Document || v is BlockQuote || v is List || v is Item || v is CodeBlock || v is HtmlBlock
        || v is CustomBlock || v is Paragraph || v is Heading || v is ThematicBreak
}

/// Whether a node with value `parent` may have a child with value `child`.
pub open spec fn val_can_contain(parent: NodeVal, child: NodeVal) -> bool {
    if child is Document {
        false
    } else if parent is Document || parent is BlockQuote || parent is Item {
        val_is_block(child) && !(child is Item)
    } else if parent is List {
        child is Item
    } else if parent is CustomBlock {
        true
    } else if parent is Paragraph || parent is Heading || parent is Emph || parent is Strong
        || parent is Link || parent is Image || parent is CustomInline {
        !val_is_block(child)
    } else {
        false
    }
}

impl NodeVal {
    /// Whether the node is a block.
    pub fn block(&self) -> (r: bool)
        ensures
            r == val_is_block(*self),
    {
        match self {
            NodeVal::Document | NodeVal::BlockQuote | NodeVal::List | NodeVal::Item
            | NodeVal::CodeBlock(..) | NodeVal::HtmlBlock(..) | NodeVal::CustomBlock
            | NodeVal::Paragraph | NodeVal::Heading(..) | NodeVal::ThematicBreak => true,
            _ => false,
        }
    }

    /// Whether the node takes lines of the source as content.
    pub fn accepts_lines(&self) -> (r: bool)
        ensures
            r == (*self is Paragraph || *self is Heading || *self is CodeBlock),
    {
        match self {
            NodeVal::Paragraph | NodeVal::Heading(..) | NodeVal::CodeBlock(..) => true,
            _ => false,
        }
    }

    /// Whether the node holds inlines.
    pub fn contains_inlines(&self) -> (r: bool)
        ensures
            r == (*self is Paragraph || *self is Heading),
    {
        match self {
            NodeVal::Paragraph | NodeVal::Heading(..) => true,
            _ => false,
        }
    }

    /// The bytes of a text node, to change in place.
    pub fn text(&mut self) -> (r: Option<&mut Vec<u8>>)
        ensures
            *old(self) is Text ==> (r matches Some(t) && *t == old(self)->Text_0 && *final(self)
                == NodeVal::Text(*final(t))),
            !(*old(self) is Text) ==> r is None && *final(self) == *old(self),
    {
        match self {
            NodeVal::Text(t) => Some(t),
            _ => None,
        }
    }

    /// Whether a node of this kind may have a child of kind `child`.
    pub fn can_contain_type(&self, child: &NodeVal) -> (r: bool)
        ensures
            r == val_can_contain(*self, *child),
    {
        if let NodeVal::Document = child {
            return false;
        }
        match self {
            NodeVal::Document | NodeVal::BlockQuote | NodeVal::Item => child.block() && match child {
                NodeVal::Item => false,
                _ => true,
            },
            NodeVal::List => match child {
                NodeVal::Item => true,
                _ => false,
            },
            NodeVal::CustomBlock => true,
            NodeVal::Paragraph | NodeVal::Heading(..) | NodeVal::Emph | NodeVal::Strong
            | NodeVal::Link | NodeVal::Image | NodeVal::CustomInline => !child.block(),
            _ => false,
        }
    }
}

/// A node of the block parser, with its position and state.
#[derive(Debug)]
pub struct NI {
    pub typ: NodeVal,
    pub content: Vec<u8>,
    pub start_line: u32,
    pub start_column: usize,
    pub end_line: u32,
    pub end_column: usize,
    pub open: bool,
    pub last_line_blank: bool,
}

/// A new open block of kind `typ` that starts at the given line and column
/// and has no content yet.
pub fn make_block(typ: NodeVal, start_line: u32, start_column: usize) -> (r: NI)
    ensures
        r.typ == typ,
        r.content@ == Seq::<u8>::empty(),
        r.start_line == start_line,
        r.start_column == start_column,
        r.end_line == start_line,
        r.end_column == 0,
        r.open,
        !r.last_line_blank,
{
    NI {
        typ: typ,
        content: Vec::new(),
        start_line: start_line,
        start_column: start_column,
        end_line: start_line,
        end_column: 0,
        open: true,
        last_line_blank: false,
    }
}

} // verus!
