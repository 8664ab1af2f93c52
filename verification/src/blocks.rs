//! Notion blocks and rich text.

use vstd::prelude::*;

verus! {

/// The color of a run of text.
#[derive(Debug, Clone, Copy, PartialEq, Eq, Structural)]
pub enum Color {
    Default,
    Blue,
    Brown,
    Gray,
    Green,
    Orange,
    Pink,
    Purple,
    Red,
    Yellow,
    DefaultBackground,
    BlueBackground,
    BrownBackground,
    GrayBackground,
    GreenBackground,
    OrangeBackground,
    PinkBackground,
    PurpleBackground,
    RedBackground,
    YellowBackground,
}

/// The style of a run of text.
#[derive(Debug, Clone, Copy, PartialEq, Eq, Structural)]
pub struct Annotations {
    pub bold: bool,
    pub italic: bool,
    pub strikethrough: bool,
    pub underline: bool,
    pub code: bool,
    pub color: Color,
}

impl DeepView for Annotations {
    type V = Annotations;

    open spec fn deep_view(&self) -> Annotations {
        *self
    }
}

/// No style at all.
pub open spec fn plain_style() -> Annotations {
    Annotations {
        bold: false,
        italic: false,
        strikethrough: false,
        underline: false,
        code: false,
        color: Color::Default,
    }
}

impl Default for Annotations {
    fn default() -> (r: Annotations)
        ensures
            r == plain_style(),
    {
        Annotations {
            bold: false,
            italic: false,
            strikethrough: false,
            underline: false,
            code: false,
            color: Color::Default,
        }
    }
}

/// What a mention points at. Only pages are told apart.
#[derive(Debug, Clone, PartialEq, Eq)]
pub enum Mention {
    Page { id: String },
    Other,
}

/// The model of a mention.
pub enum MentionView {
    Page { id: Seq<char> },
    Other,
}

impl DeepView for Mention {
    type V = MentionView;

    open spec fn deep_view(&self) -> MentionView {
        match self {
            Mention::Page { id } => MentionView::Page { id: id@ },
            Mention::Other => MentionView::Other,
        }
    }
}

/// A run of rich text.
#[derive(Debug, Clone, PartialEq, Eq)]
pub enum RichText {
    /// Text, with the URL it links to, if any.
    Text {
        content: String,
        link: Option<String>,
        annotations: Annotations,
        plain_text: String,
        href: Option<String>,
    },
    Mention {
        mention: Mention,
        annotations: Annotations,
        plain_text: String,
        href: Option<String>,
    },
    Equation {
        expression: String,
        annotations: Annotations,
        plain_text: String,
        href: Option<String>,
    },
}

/// The model of a run.
pub enum RichTextView {
    Text {
        content: Seq<char>,
        link: Option<Seq<char>>,
        annotations: Annotations,
        plain_text: Seq<char>,
        href: Option<Seq<char>>,
    },
    Mention {
        mention: MentionView,
        annotations: Annotations,
        plain_text: Seq<char>,
        href: Option<Seq<char>>,
    },
    Equation {
        expression: Seq<char>,
        annotations: Annotations,
        plain_text: Seq<char>,
        href: Option<Seq<char>>,
    },
}

impl DeepView for RichText {
    type V = RichTextView;

    open spec fn deep_view(&self) -> RichTextView {
        match self {
            RichText::Text { content, link, annotations, plain_text, href } => RichTextView::Text {
                content: content@,
                link: link.deep_view(),
                annotations: *annotations,
                plain_text: plain_text@,
                href: href.deep_view(),
            },
            RichText::Mention { mention, annotations, plain_text, href } => RichTextView::Mention {
                mention: mention.deep_view(),
                annotations: *annotations,
                plain_text: plain_text@,
                href: href.deep_view(),
            },
            RichText::Equation { expression, annotations, plain_text, href } =>
                RichTextView::Equation {
                expression: expression@,
                annotations: *annotations,
                plain_text: plain_text@,
                href: href.deep_view(),
            },
        }
    }
}

/// A Notion block. [`Block::Other`] stands for every kind that holds no
/// inline rich text, [`Block::Divider`] and code aside.
#[derive(Debug, Clone, PartialEq, Eq)]
pub enum Block {
    Paragraph { rich_text: Vec<RichText> },
    Heading1 { rich_text: Vec<RichText> },
    Heading2 { rich_text: Vec<RichText> },
    Heading3 { rich_text: Vec<RichText> },
    Heading4 { rich_text: Vec<RichText> },
    BulletedListItem { rich_text: Vec<RichText> },
    NumberedListItem { rich_text: Vec<RichText> },
    Quote { rich_text: Vec<RichText> },
    Toggle { rich_text: Vec<RichText> },
    ToDo { rich_text: Vec<RichText> },
    /// A callout; the icon is an emoji.
    Callout { rich_text: Vec<RichText>, icon: Option<String> },
    /// Source text; the language is Notion's name for it.
    Code { caption: Vec<RichText>, rich_text: Vec<RichText>, language: String },
    Divider,
    Other,
}

/// The model of a block.
pub enum BlockView {
    Paragraph { rich_text: Seq<RichTextView> },
    Heading1 { rich_text: Seq<RichTextView> },
    Heading2 { rich_text: Seq<RichTextView> },
    Heading3 { rich_text: Seq<RichTextView> },
    Heading4 { rich_text: Seq<RichTextView> },
    BulletedListItem { rich_text: Seq<RichTextView> },
    NumberedListItem { rich_text: Seq<RichTextView> },
    Quote { rich_text: Seq<RichTextView> },
    Toggle { rich_text: Seq<RichTextView> },
    ToDo { rich_text: Seq<RichTextView> },
    Callout { rich_text: Seq<RichTextView>, icon: Option<Seq<char>> },
    Code { caption: Seq<RichTextView>, rich_text: Seq<RichTextView>, language: Seq<char> },
    Divider,
    Other,
}

impl DeepView for Block {
    type V = BlockView;

    open spec fn deep_view(&self) -> BlockView {
        match self {
            Block::Paragraph { rich_text } => BlockView::Paragraph {
                rich_text: rich_text.deep_view(),
            },
            Block::Heading1 { rich_text } => BlockView::Heading1 {
                rich_text: rich_text.deep_view(),
            },
            Block::Heading2 { rich_text } => BlockView::Heading2 {
                rich_text: rich_text.deep_view(),
            },
            Block::Heading3 { rich_text } => BlockView::Heading3 {
                rich_text: rich_text.deep_view(),
            },
            Block::Heading4 { rich_text } => BlockView::Heading4 {
                rich_text: rich_text.deep_view(),
            },
            Block::BulletedListItem { rich_text } => BlockView::BulletedListItem {
                rich_text: rich_text.deep_view(),
            },
            Block::NumberedListItem { rich_text } => BlockView::NumberedListItem {
                rich_text: rich_text.deep_view(),
            },
            Block::Quote { rich_text } => BlockView::Quote { rich_text: rich_text.deep_view() },
            Block::Toggle { rich_text } => BlockView::Toggle { rich_text: rich_text.deep_view() },
            Block::ToDo { rich_text } => BlockView::ToDo { rich_text: rich_text.deep_view() },
            Block::Callout { rich_text, icon } => BlockView::Callout {
                rich_text: rich_text.deep_view(),
                icon: icon.deep_view(),
            },
            Block::Code { caption, rich_text, language } => BlockView::Code {
                caption: caption.deep_view(),
                rich_text: rich_text.deep_view(),
                language: language@,
            },
            Block::Divider => BlockView::Divider,
            Block::Other => BlockView::Other,
        }
    }
}

/// The inline rich text of a block: none for code, whose text is verbatim
/// content, and none for the kinds without inline rich text.
pub open spec fn inline_text(b: BlockView) -> Option<Seq<RichTextView>> {
    match b {
        BlockView::Paragraph { rich_text } => Some(rich_text),
        BlockView::Heading1 { rich_text } => Some(rich_text),
        BlockView::Heading2 { rich_text } => Some(rich_text),
        BlockView::Heading3 { rich_text } => Some(rich_text),
        BlockView::Heading4 { rich_text } => Some(rich_text),
        BlockView::BulletedListItem { rich_text } => Some(rich_text),
        BlockView::NumberedListItem { rich_text } => Some(rich_text),
        BlockView::Quote { rich_text } => Some(rich_text),
        BlockView::Toggle { rich_text } => Some(rich_text),
        BlockView::ToDo { rich_text } => Some(rich_text),
        BlockView::Callout { rich_text, icon: _ } => Some(rich_text),
        _ => None,
    }
}

/// The block with other inline rich text.
pub open spec fn with_inline_text(b: BlockView, runs: Seq<RichTextView>) -> BlockView {
    match b {
        BlockView::Paragraph { .. } => BlockView::Paragraph { rich_text: runs },
        BlockView::Heading1 { .. } => BlockView::Heading1 { rich_text: runs },
        BlockView::Heading2 { .. } => BlockView::Heading2 { rich_text: runs },
        BlockView::Heading3 { .. } => BlockView::Heading3 { rich_text: runs },
        BlockView::Heading4 { .. } => BlockView::Heading4 { rich_text: runs },
        BlockView::BulletedListItem { .. } => BlockView::BulletedListItem { rich_text: runs },
        BlockView::NumberedListItem { .. } => BlockView::NumberedListItem { rich_text: runs },
        BlockView::Quote { .. } => BlockView::Quote { rich_text: runs },
        BlockView::Toggle { .. } => BlockView::Toggle { rich_text: runs },
        BlockView::ToDo { .. } => BlockView::ToDo { rich_text: runs },
        BlockView::Callout { rich_text: _, icon } => BlockView::Callout { rich_text: runs, icon },
        other => other,
    }
}

/// The run in another color.
pub open spec fn recolored(run: RichTextView, color: Color) -> RichTextView {
    match run {
        RichTextView::Text { content, link, annotations, plain_text, href } => RichTextView::Text {
            content,
            link,
            annotations: Annotations { color, ..annotations },
            plain_text,
            href,
        },
        RichTextView::Mention { mention, annotations, plain_text, href } => RichTextView::Mention {
            mention,
            annotations: Annotations { color, ..annotations },
            plain_text,
            href,
        },
        RichTextView::Equation { expression, annotations, plain_text, href } =>
            RichTextView::Equation {
            expression,
            annotations: Annotations { color, ..annotations },
            plain_text,
            href,
        },
    }
}

} // verus!
