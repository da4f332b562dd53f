//! Target-independent syntax tree for Cosense documents, and its mathematical
//! view (every `String` seen as its `Seq<char>`).
//!
//! Blocks mirror the two-phase parser design (tokenizer, then block matching).
//! Inline content is itself a tree: `[...]` spans are classified once into
//! typed nodes, and each output target renders them by walking the tree.
use vstd::prelude::*;

verus! {

#[derive(Debug, Clone, PartialEq)]
pub enum Block {
    Heading { level: usize, text: String },
    Paragraph { text: String },
    BlankLine,
    Code { language: String, lines: Vec<String>, indent: String },
    Math { lines: Vec<String>, indent: String },
    BulletList { items: Vec<ListItem> },
    Table { title: Option<String>, header: Vec<String>, rows: Vec<Vec<String>> },
}

/// One bullet: its nesting level (0-based) and inline text. Cosense lists are a
/// flat sequence: irregular indentation is normalized to sequential levels
/// while parsing, so there is no recursive tree to build, render, or drop.
#[derive(Debug, Clone, PartialEq)]
pub struct ListItem {
    pub level: usize,
    pub text: String,
}

#[derive(Debug, Clone, PartialEq)]
pub struct Document {
    pub blocks: Vec<Block>,
}

/// One classified `[...]` span or plain-text run inside a line.
///
/// `Unknown` carries its source text verbatim: anything the classifier
/// does not recognise passes through untouched.
#[derive(Debug, Clone, PartialEq)]
pub enum Inline {
    Text(String),
    Emphasis(Emphasis),
    Tag(String),
    Image { alt: String, url: String },
    Link { label: String, url: String },
    AutoLink(String),
    Unknown(String),
}

#[derive(Debug, Clone, PartialEq)]
pub struct Emphasis {
    pub bold: bool,
    pub italic: bool,
    pub strike: bool,
    pub text: String,
}

/// The view of a block.
pub enum BlockV {
    Heading { level: nat, text: Seq<char> },
    Paragraph { text: Seq<char> },
    BlankLine,
    Code { language: Seq<char>, lines: Seq<Seq<char>>, indent: Seq<char> },
    Math { lines: Seq<Seq<char>>, indent: Seq<char> },
    BulletList { items: Seq<ListItemV> },
    Table { title: Option<Seq<char>>, header: Seq<Seq<char>>, rows: Seq<Seq<Seq<char>>> },
}

pub struct ListItemV {
    pub level: nat,
    pub text: Seq<char>,
}

pub struct EmphasisV {
    pub bold: bool,
    pub italic: bool,
    pub strike: bool,
    pub text: Seq<char>,
}

/// The view of an inline node.
pub enum InlineV {
    Text(Seq<char>),
    Emphasis(EmphasisV),
    Tag(Seq<char>),
    Image { alt: Seq<char>, url: Seq<char> },
    Link { label: Seq<char>, url: Seq<char> },
    AutoLink(Seq<char>),
    Unknown(Seq<char>),
}

pub open spec fn strs(v: Seq<String>) -> Seq<Seq<char>> {
    v.map_values(|s: String| s@)
}

pub open spec fn rows_view(v: Seq<Vec<String>>) -> Seq<Seq<Seq<char>>> {
    v.map_values(|r: Vec<String>| strs(r@))
}

pub open spec fn opt_view(o: Option<String>) -> Option<Seq<char>> {
    match o {
        Some(s) => Some(s@),
        None => None,
    }
}

impl View for ListItem {
    type V = ListItemV;

    open spec fn view(&self) -> ListItemV {
        ListItemV { level: self.level as nat, text: self.text@ }
    }
}

impl View for Emphasis {
    type V = EmphasisV;

    open spec fn view(&self) -> EmphasisV {
        EmphasisV { bold: self.bold, italic: self.italic, strike: self.strike, text: self.text@ }
    }
}

pub open spec fn items_view(v: Seq<ListItem>) -> Seq<ListItemV> {
    v.map_values(|i: ListItem| i@)
}

impl View for Block {
    type V = BlockV;

    open spec fn view(&self) -> BlockV {
        match self {
            Block::Heading { level, text } => BlockV::Heading { level: *level as nat, text: text@ },
            Block::Paragraph { text } => BlockV::Paragraph { text: text@ },
            Block::BlankLine => BlockV::BlankLine,
            Block::Code { language, lines, indent } => BlockV::Code {
                language: language@,
                lines: strs(lines@),
                indent: indent@,
            },
            Block::Math { lines, indent } => BlockV::Math { lines: strs(lines@), indent: indent@ },
            Block::BulletList { items } => BlockV::BulletList { items: items_view(items@) },
            Block::Table { title, header, rows } => BlockV::Table {
                title: opt_view(*title),
                header: strs(header@),
                rows: rows_view(rows@),
            },
        }
    }
}

impl View for Inline {
    type V = InlineV;

    open spec fn view(&self) -> InlineV {
        match self {
            Inline::Text(t) => InlineV::Text(t@),
            Inline::Emphasis(e) => InlineV::Emphasis(e@),
            Inline::Tag(t) => InlineV::Tag(t@),
            Inline::Image { alt, url } => InlineV::Image { alt: alt@, url: url@ },
            Inline::Link { label, url } => InlineV::Link { label: label@, url: url@ },
            Inline::AutoLink(u) => InlineV::AutoLink(u@),
            Inline::Unknown(r) => InlineV::Unknown(r@),
        }
    }
}

pub open spec fn inlines_view(v: Seq<Inline>) -> Seq<InlineV> {
    v.map_values(|i: Inline| i@)
}

pub open spec fn blocks_view(v: Seq<Block>) -> Seq<BlockV> {
    v.map_values(|b: Block| b@)
}

impl View for Document {
    type V = Seq<BlockV>;

    open spec fn view(&self) -> Seq<BlockV> {
        blocks_view(self.blocks@)
    }
}

} // verus!
