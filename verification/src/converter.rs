//! Converts [`OrgBlock`]s into Notion [`Block`]s.
//!
//! The conversion is a pipeline ([`Converter`]): steps may rewrite the org
//! blocks before the conversion and the Notion blocks after it.
//!
//! Links to other nodes become page mentions, by way of the map from org IDs
//! to [`LinkTarget`]s. A mention carries the target page's ID, which is what
//! lets a published page be checked.

use crate::blocks;
use crate::blocks::{Annotations, Block, BlockView, Mention, MentionView, RichText, RichTextView};
use crate::id_map::IdMap;
use crate::org_parser;
use crate::org_parser::{Markup, OrgBlock, OrgBlockView, Span, SpanView};
use crate::text;
use vstd::prelude::*;

verus! {

/// How an `[[id:...]]` link resolves in the published snapshot.
#[derive(Debug, PartialEq, Eq)]
pub enum LinkTarget {
    /// A mention of the page with this ID.
    Page(String),
    /// A URL link to a block on a page: the heading of a node that is merged
    /// onto a directory's page.
    Block {
        /// The ID of the page that the block is on.
        page_id: String,
        /// The URL of that page with the block as its anchor,
        /// `https://notion.so/{page_id}#{block_id}`.
        url: String,
        /// What the link shows.
        text: String,
    },
}

/// The model of a link target.
pub enum LinkTargetView {
    Page(Seq<char>),
    Block { page_id: Seq<char>, url: Seq<char>, text: Seq<char> },
}

impl DeepView for LinkTarget {
    type V = LinkTargetView;

    open spec fn deep_view(&self) -> LinkTargetView {
        match self {
            LinkTarget::Page(id) => LinkTargetView::Page(id@),
            LinkTarget::Block { page_id, url, text } => LinkTargetView::Block {
                page_id: page_id@,
                url: url@,
                text: text@,
            },
        }
    }
}

impl Clone for LinkTarget {
    fn clone(&self) -> (r: LinkTarget)
        ensures
            r.deep_view() == self.deep_view(),
    {
        match self {
            LinkTarget::Page(id) => LinkTarget::Page(id.clone()),
            LinkTarget::Block { page_id, url, text } => LinkTarget::Block {
                page_id: page_id.clone(),
                url: url.clone(),
                text: text.clone(),
            },
        }
    }
}

/// From org IDs to link targets.
pub type LinkMap = IdMap<LinkTarget>;

/// The model of a link map.
pub type LinkMapView = Map<Seq<char>, LinkTargetView>;

/// Notion's limit on the characters of one run of text.
pub const MAX_TEXT_LEN: usize = 2000;

/// Notion's limit on the runs of one block.
pub const MAX_RICH_TEXT_ITEMS: usize = 100;

// ---------------------------------------------------------------------
// Runs
// ---------------------------------------------------------------------

/// The text in pieces of at most [`MAX_TEXT_LEN`] characters, all but the last
/// of that length.
pub open spec fn chunks(s: Seq<char>) -> Seq<Seq<char>>
    decreases s.len(),
{
    if s.len() <= MAX_TEXT_LEN {
        seq![s]
    } else {
        seq![s.take(MAX_TEXT_LEN as int)] + chunks(s.skip(MAX_TEXT_LEN as int))
    }
}

/// A run of text in the given style.
pub open spec fn styled_run(content: Seq<char>, annotations: Annotations) -> RichTextView {
    RichTextView::Text { content, link: None, annotations, plain_text: content, href: None }
}

/// A run of text without style.
pub open spec fn plain_run(content: Seq<char>) -> RichTextView {
    styled_run(content, blocks::plain_style())
}

/// A run of text that links to a URL.
pub open spec fn linked_run(content: Seq<char>, url: Seq<char>) -> RichTextView {
    RichTextView::Text {
        content,
        link: Some(url),
        annotations: blocks::plain_style(),
        plain_text: content,
        href: Some(url),
    }
}

/// A run that mentions a page.
pub open spec fn mention_run(page_id: Seq<char>) -> RichTextView {
    RichTextView::Mention {
        mention: MentionView::Page { id: page_id },
        annotations: blocks::plain_style(),
        plain_text: ""@,
        href: None,
    }
}

/// The style of an org emphasis.
pub open spec fn markup_style(markup: Markup) -> Annotations {
    let plain = blocks::plain_style();
    match markup {
        Markup::Bold => Annotations { bold: true, ..plain },
        Markup::Italic => Annotations { italic: true, ..plain },
        Markup::Underline => Annotations { underline: true, ..plain },
        Markup::Strikethrough => Annotations { strikethrough: true, ..plain },
        Markup::Code => Annotations { code: true, ..plain },
    }
}

/// A text in runs of the given style.
pub open spec fn styled_runs(s: Seq<char>, annotations: Annotations) -> Seq<RichTextView> {
    chunks(s).map_values(|c: Seq<char>| styled_run(c, annotations))
}

/// A text in runs that link to a URL.
pub open spec fn linked_runs(s: Seq<char>, url: Seq<char>) -> Seq<RichTextView> {
    chunks(s).map_values(|c: Seq<char>| linked_run(c, url))
}

/// The runs of one span. A link that the map does not resolve reads as its
/// description, or as the org link itself.
pub open spec fn span_runs(s: SpanView, links: LinkMapView) -> Seq<RichTextView> {
    match s {
        SpanView::Text(t) => styled_runs(t, blocks::plain_style()),
        SpanView::Marked { text, markup } => styled_runs(text, markup_style(markup)),
        SpanView::LinkRef { id, description } => if links.dom().contains(id) {
            match links[id] {
                LinkTargetView::Page(page_id) => seq![mention_run(page_id)],
                LinkTargetView::Block { page_id: _, url, text } => linked_runs(text, url),
            }
        } else {
            styled_runs(
                match description {
                    Some(t) => t,
                    None => "[[id:"@ + id + "]]"@,
                },
                blocks::plain_style(),
            )
        },
        SpanView::ExternalLink { url, description } => linked_runs(
            match description {
                Some(t) => t,
                None => url,
            },
            url,
        ),
    }
}

/// The runs of spans, one after another.
pub open spec fn all_runs(spans: Seq<SpanView>, links: LinkMapView) -> Seq<RichTextView>
    decreases spans.len(),
{
    if spans.len() == 0 {
        Seq::<RichTextView>::empty()
    } else {
        all_runs(spans.drop_last(), links) + span_runs(spans.last(), links)
    }
}

/// At most the first [`MAX_RICH_TEXT_ITEMS`] runs.
pub open spec fn capped(runs: Seq<RichTextView>) -> Seq<RichTextView> {
    if runs.len() <= MAX_RICH_TEXT_ITEMS {
        runs
    } else {
        runs.take(MAX_RICH_TEXT_ITEMS as int)
    }
}

/// The rich text of spans: at least one run, and no more than Notion takes.
pub open spec fn rich_text_spec(spans: Seq<SpanView>, links: LinkMapView) -> Seq<RichTextView> {
    let runs = all_runs(spans, links);
    if runs.len() == 0 {
        seq![plain_run(""@)]
    } else {
        capped(runs)
    }
}

// ---------------------------------------------------------------------
// Blocks
// ---------------------------------------------------------------------

/// Notion's name for the language that it knows under a name.
pub uninterp spec fn notion_language(s: Seq<char>) -> Option<Seq<char>>;

/// `notionrs_types::object::language::Language::from_str`, and the name that
/// the language found displays as: a function of the name alone, with no
/// result where Notion does not know the language.
#[verifier::external_body]
fn find_language(s: &str) -> (r: Option<String>)
    ensures
        r.deep_view() == notion_language(s@),
{
    <notionrs_types::object::language::Language as std::str::FromStr>::from_str(s)
        .ok()
        .map(|language| language.to_string())
}

/// The language name that a short name stands for.
pub open spec fn alias_of(s: Seq<char>) -> Seq<char> {
    if s == "sh"@ || s == "zsh"@ {
        "shell"@
    } else if s == "js"@ {
        "javascript"@
    } else if s == "ts"@ {
        "typescript"@
    } else if s == "py"@ {
        "python"@
    } else if s == "rs"@ {
        "rust"@
    } else if s == "elisp"@ || s == "emacs-lisp"@ {
        "lisp"@
    } else {
        s
    }
}

/// The language of a code block, given what Notion calls it.
pub open spec fn language_or_plain(found: Option<Seq<char>>) -> Seq<char> {
    match found {
        Some(name) => name,
        None => "plain text"@,
    }
}

/// The Notion language of an org language tag.
pub open spec fn code_language(tag: Option<Seq<char>>) -> Seq<char> {
    match tag {
        None => "plain text"@,
        Some(t) => language_or_plain(notion_language(alias_of(text::lowercase(t)))),
    }
}

/// The Notion block of an org block.
pub open spec fn block_spec(b: OrgBlockView, links: LinkMapView) -> BlockView {
    match b {
        OrgBlockView::Heading { level, spans } => {
            let rich_text = rich_text_spec(spans, links);
            if level == 1 {
                BlockView::Heading1 { rich_text }
            } else if level == 2 {
                BlockView::Heading2 { rich_text }
            } else {
                BlockView::Heading3 { rich_text }
            }
        },
        OrgBlockView::Paragraph { spans } => BlockView::Paragraph {
            rich_text: rich_text_spec(spans, links),
        },
        OrgBlockView::BulletItem { spans } => BlockView::BulletedListItem {
            rich_text: rich_text_spec(spans, links),
        },
        OrgBlockView::NumberedItem { spans } => BlockView::NumberedListItem {
            rich_text: rich_text_spec(spans, links),
        },
        OrgBlockView::Quote { spans } => BlockView::Quote {
            rich_text: rich_text_spec(spans, links),
        },
        OrgBlockView::CodeBlock { language, content } => BlockView::Code {
            caption: Seq::<RichTextView>::empty(),
            rich_text: styled_runs(content, blocks::plain_style()),
            language: code_language(language),
        },
    }
}

/// The Notion blocks of org blocks, one for one.
pub open spec fn blocks_spec(bs: Seq<OrgBlockView>, links: LinkMapView) -> Seq<BlockView> {
    bs.map_values(|b: OrgBlockView| block_spec(b, links))
}

/// A mention of a page: what an `[[id:...]]` link becomes.
pub fn page_mention(page_id: &str) -> (r: RichText)
    ensures
        r.deep_view() == mention_run(page_id@),
{
    RichText::Mention {
        mention: Mention::Page { id: page_id.to_owned() },
        annotations: Annotations::default(),
        plain_text: "".to_owned(),
        href: None,
    }
}

fn styled(content: &str, annotations: Annotations) -> (r: RichText)
    ensures
        r.deep_view() == styled_run(content@, annotations),
{
    RichText::Text {
        content: content.to_owned(),
        link: None,
        annotations,
        plain_text: content.to_owned(),
        href: None,
    }
}

/// A plain run of text.
pub fn text_run(content: &str) -> (r: RichText)
    ensures
        r.deep_view() == plain_run(content@),
{
    styled(content, Annotations::default())
}

fn linked(content: &str, url: &str) -> (r: RichText)
    ensures
        r.deep_view() == linked_run(content@, url@),
{
    RichText::Text {
        content: content.to_owned(),
        link: Some(url.to_owned()),
        annotations: Annotations::default(),
        plain_text: content.to_owned(),
        href: Some(url.to_owned()),
    }
}

/// The text in pieces of at most [`MAX_TEXT_LEN`] characters.
pub fn chunk_text(s: &str) -> (r: Vec<String>)
    ensures
        r.deep_view() == chunks(s@),
{
    let cs: Vec<char> = text::chars_of(s);
    let n: usize = cs.len();
    let mut out: Vec<String> = Vec::new();
    let mut i: usize = 0;
    assert(out.deep_view() + chunks(s@.skip(0)) =~= chunks(s@)) by {
        assert(s@.skip(0) =~= s@);
    }
    while n - i > MAX_TEXT_LEN
        invariant
            cs@ == s@,
            i <= n == cs@.len(),
            out.deep_view() + chunks(s@.skip(i as int)) == chunks(s@),
        decreases n - i,
    {
        let ghost before = out.deep_view();
        let ghost rest = s@.skip(i as int);
        let piece: String = text::string_of(&cs, i, i + MAX_TEXT_LEN);
        out.push(piece);
        proof {
            assert(piece@ =~= rest.take(MAX_TEXT_LEN as int));
            assert(rest.skip(MAX_TEXT_LEN as int) =~= s@.skip(i + MAX_TEXT_LEN));
            assert(out.deep_view() =~= before.push(piece@));
            assert(out.deep_view() + chunks(s@.skip(i + MAX_TEXT_LEN)) =~= before + chunks(rest));
        }
        i = i + MAX_TEXT_LEN;
    }
    let ghost before = out.deep_view();
    let piece: String = text::string_of(&cs, i, n);
    out.push(piece);
    proof {
        assert(piece@ =~= s@.skip(i as int));
        assert(out.deep_view() =~= before + seq![piece@]);
    }
    out
}

fn chunked_annotated_runs(s: &str, annotations: Annotations) -> (r: Vec<RichText>)
    ensures
        r.deep_view() == styled_runs(s@, annotations),
{
    let pieces: Vec<String> = chunk_text(s);
    let mut out: Vec<RichText> = Vec::new();
    let mut i: usize = 0;
    while i < pieces.len()
        invariant
            pieces.deep_view() == chunks(s@),
            i <= pieces@.len(),
            out.deep_view() == styled_runs(s@, annotations).take(i as int),
        decreases pieces.len() - i,
    {
        let ghost before = out.deep_view();
        let run: RichText = styled(pieces[i].as_str(), annotations);
        assert(pieces.deep_view()[i as int] == pieces[i as int]@);
        out.push(run);
        assert(out.deep_view() =~= before.push(run.deep_view()));
        i = i + 1;
    }
    out
}

fn chunked_text_runs(s: &str) -> (r: Vec<RichText>)
    ensures
        r.deep_view() == styled_runs(s@, blocks::plain_style()),
{
    chunked_annotated_runs(s, Annotations::default())
}

fn chunked_link_runs(s: &str, url: &str) -> (r: Vec<RichText>)
    ensures
        r.deep_view() == linked_runs(s@, url@),
{
    let pieces: Vec<String> = chunk_text(s);
    let mut out: Vec<RichText> = Vec::new();
    let mut i: usize = 0;
    while i < pieces.len()
        invariant
            pieces.deep_view() == chunks(s@),
            i <= pieces@.len(),
            out.deep_view() == linked_runs(s@, url@).take(i as int),
        decreases pieces.len() - i,
    {
        let ghost before = out.deep_view();
        let run: RichText = linked(pieces[i].as_str(), url);
        assert(pieces.deep_view()[i as int] == pieces[i as int]@);
        out.push(run);
        assert(out.deep_view() =~= before.push(run.deep_view()));
        i = i + 1;
    }
    out
}

fn annotations_for(markup: Markup) -> (r: Annotations)
    ensures
        r == markup_style(markup),
{
    let mut a: Annotations = Annotations::default();
    match markup {
        Markup::Bold => a.bold = true,
        Markup::Italic => a.italic = true,
        Markup::Underline => a.underline = true,
        Markup::Strikethrough => a.strikethrough = true,
        Markup::Code => a.code = true,
    }
    a
}

fn runs_of_span(span: &Span, links: &LinkMap) -> (r: Vec<RichText>)
    ensures
        r.deep_view() == span_runs(span.deep_view(), links.map()),
{
    match span {
        Span::Text(t) => chunked_text_runs(t.as_str()),
        Span::Marked { text: t, markup } => chunked_annotated_runs(
            t.as_str(),
            annotations_for(*markup),
        ),
        Span::LinkRef { id, description } => match links.get(id.as_str()) {
            Some(LinkTarget::Page(page_id)) => {
                let mut out: Vec<RichText> = Vec::new();
                out.push(page_mention(page_id.as_str()));
                assert(out.deep_view() =~= seq![mention_run(page_id@)]);
                out
            },
            Some(LinkTarget::Block { page_id: _, url, text: t }) => chunked_link_runs(
                t.as_str(),
                url.as_str(),
            ),
            None => match description {
                Some(t) => chunked_text_runs(t.as_str()),
                None => {
                    let mut t: String = text::concat2("[[id:", id.as_str());
                    t.append("]]");
                    chunked_text_runs(t.as_str())
                },
            },
        },
        Span::ExternalLink { url, description } => match description {
            Some(t) => chunked_link_runs(t.as_str(), url.as_str()),
            None => chunked_link_runs(url.as_str(), url.as_str()),
        },
    }
}

/// Turns spans into Notion rich text.
pub fn rich_text(spans: &Vec<Span>, links: &LinkMap) -> (r: Vec<RichText>)
    ensures
        r.deep_view() == rich_text_spec(spans.deep_view(), links.map()),
{
    let ghost all = spans.deep_view();
    let mut out: Vec<RichText> = Vec::new();
    let mut i: usize = 0;
    assert(out.deep_view() =~= all_runs(all.take(0), links.map()));
    while i < spans.len()
        invariant
            all == spans.deep_view(),
            i <= spans@.len(),
            out.deep_view() == all_runs(all.take(i as int), links.map()),
        decreases spans.len() - i,
    {
        assert(all.take(i + 1).drop_last() =~= all.take(i as int));
        assert(all.take(i + 1).last() == spans[i as int].deep_view());
        let mut runs: Vec<RichText> = runs_of_span(&spans[i], links);
        let ghost before = out.deep_view();
        let ghost new = runs.deep_view();
        out.append(&mut runs);
        assert(out.deep_view() =~= before + new);
        i = i + 1;
    }
    assert(all.take(i as int) =~= all);
    if out.len() == 0 {
        out.push(text_run(""));
        assert(out.deep_view() =~= seq![plain_run(""@)]);
    }
    let ghost full = out.deep_view();
    out.truncate(MAX_RICH_TEXT_ITEMS);
    assert(out.deep_view() =~= capped(full));
    out
}

/// The language of a code block, given what Notion calls it.
pub fn named_language(found: Option<String>) -> (r: String)
    ensures
        r@ == language_or_plain(found.deep_view()),
{
    match found {
        Some(name) => name,
        None => "plain text".to_owned(),
    }
}

/// The language name that a short name stands for.
pub fn resolve_alias(s: &str) -> (r: String)
    ensures
        r@ == alias_of(s@),
{
    let name: &str = if text::same_text(s, "sh") || text::same_text(s, "zsh") {
        "shell"
    } else if text::same_text(s, "js") {
        "javascript"
    } else if text::same_text(s, "ts") {
        "typescript"
    } else if text::same_text(s, "py") {
        "python"
    } else if text::same_text(s, "rs") {
        "rust"
    } else if text::same_text(s, "elisp") || text::same_text(s, "emacs-lisp") {
        "lisp"
    } else {
        s
    };
    name.to_owned()
}

/// Notion's language for an org language tag; plain text where Notion knows
/// none.
pub fn normalize_code_language(language: &Option<String>) -> (r: String)
    ensures
        r@ == code_language(language.deep_view()),
{
    match language {
        None => "plain text".to_owned(),
        Some(tag) => {
            let lower: String = text::to_lowercase(tag.as_str());
            let name: String = resolve_alias(lower.as_str());
            named_language(find_language(name.as_str()))
        },
    }
}

fn convert_block(block: &OrgBlock, links: &LinkMap) -> (r: Block)
    ensures
        r.deep_view() == block_spec(block.deep_view(), links.map()),
{
    match block {
        OrgBlock::Heading { level, spans } => {
            let rich_text: Vec<RichText> = rich_text(spans, links);
            if *level == 1 {
                Block::Heading1 { rich_text }
            } else if *level == 2 {
                Block::Heading2 { rich_text }
            } else {
                Block::Heading3 { rich_text }
            }
        },
        OrgBlock::Paragraph { spans } => Block::Paragraph { rich_text: rich_text(spans, links) },
        OrgBlock::BulletItem { spans } => Block::BulletedListItem {
            rich_text: rich_text(spans, links),
        },
        OrgBlock::NumberedItem { spans } => Block::NumberedListItem {
            rich_text: rich_text(spans, links),
        },
        OrgBlock::Quote { spans } => Block::Quote { rich_text: rich_text(spans, links) },
        OrgBlock::CodeBlock { language, content } => {
            let caption: Vec<RichText> = Vec::new();
            assert(caption.deep_view() =~= Seq::<RichTextView>::empty());
            Block::Code {
                caption,
                rich_text: chunked_text_runs(content.as_str()),
                language: normalize_code_language(language),
            }
        },
    }
}

/// Converts blocks one for one, with no step before or after.
pub fn convert_blocks(org_blocks: &[OrgBlock], links: &LinkMap) -> (r: Vec<Block>)
    ensures
        r.deep_view() == blocks_spec(org_blocks.deep_view(), links.map()),
{
    let mut out: Vec<Block> = Vec::new();
    let mut i: usize = 0;
    while i < org_blocks.len()
        invariant
            i <= org_blocks@.len(),
            out.deep_view() == blocks_spec(org_blocks.deep_view(), links.map()).take(i as int),
        decreases org_blocks.len() - i,
    {
        let ghost before = out.deep_view();
        let b: Block = convert_block(&org_blocks[i], links);
        out.push(b);
        assert(out.deep_view() =~= before.push(b.deep_view()));
        i = i + 1;
    }
    out
}

/// The inline rich text of a block; none for code and for the kinds without.
pub fn rich_text_of(block: &Block) -> (r: Option<&[RichText]>)
    ensures
        r.deep_view() == blocks::inline_text(block.deep_view()),
{
    match block {
        Block::Paragraph { rich_text } => Some(rich_text.as_slice()),
        Block::Heading1 { rich_text } => Some(rich_text.as_slice()),
        Block::Heading2 { rich_text } => Some(rich_text.as_slice()),
        Block::Heading3 { rich_text } => Some(rich_text.as_slice()),
        Block::Heading4 { rich_text } => Some(rich_text.as_slice()),
        Block::BulletedListItem { rich_text } => Some(rich_text.as_slice()),
        Block::NumberedListItem { rich_text } => Some(rich_text.as_slice()),
        Block::Quote { rich_text } => Some(rich_text.as_slice()),
        Block::Toggle { rich_text } => Some(rich_text.as_slice()),
        Block::ToDo { rich_text } => Some(rich_text.as_slice()),
        Block::Callout { rich_text, icon: _ } => Some(rich_text.as_slice()),
        _ => None,
    }
}

/// The inline rich text of a block, for steps that rewrite it in place.
pub fn rich_text_mut(block: &mut Block) -> (r: Option<&mut Vec<RichText>>)
    ensures
        match r {
            Some(runs) => blocks::inline_text(old(block).deep_view()) == Some(runs.deep_view())
                && final(block).deep_view() == blocks::with_inline_text(
                old(block).deep_view(),
                final(runs).deep_view(),
            ),
            None => blocks::inline_text(old(block).deep_view()) is None && *final(block) == *old(
                block,
            ),
        },
{
    match block {
        Block::Paragraph { rich_text } => Some(rich_text),
        Block::Heading1 { rich_text } => Some(rich_text),
        Block::Heading2 { rich_text } => Some(rich_text),
        Block::Heading3 { rich_text } => Some(rich_text),
        Block::Heading4 { rich_text } => Some(rich_text),
        Block::BulletedListItem { rich_text } => Some(rich_text),
        Block::NumberedListItem { rich_text } => Some(rich_text),
        Block::Quote { rich_text } => Some(rich_text),
        Block::Toggle { rich_text } => Some(rich_text),
        Block::ToDo { rich_text } => Some(rich_text),
        Block::Callout { rich_text, icon: _ } => Some(rich_text),
        _ => None,
    }
}

// ---------------------------------------------------------------------
// The pipeline
// ---------------------------------------------------------------------

/// A sequence of pipeline steps over blocks of type `T`.
pub trait Steps<T> {
    /// Whether the steps can be run on the blocks.
    spec fn accepts(&self, input: Vec<T>) -> bool;

    /// Whether the steps can turn the one list of blocks into the other.
    spec fn relates(&self, input: Vec<T>, output: Vec<T>) -> bool;

    /// Runs the steps in order.
    fn run(&self, input: Vec<T>) -> (r: Vec<T>)
        requires
            self.accepts(input),
        ensures
            self.relates(input, r),
    ;
}

/// No step at all.
pub struct NoSteps;

/// The steps of `first`, and one more after them.
pub struct Then<P, F> {
    pub first: P,
    pub step: F,
}

impl<T> Steps<T> for NoSteps {
    open spec fn accepts(&self, input: Vec<T>) -> bool {
        true
    }

    open spec fn relates(&self, input: Vec<T>, output: Vec<T>) -> bool {
        input == output
    }

    fn run(&self, input: Vec<T>) -> (r: Vec<T>) {
        input
    }
}

impl<T, P: Steps<T>, F: Fn(Vec<T>) -> Vec<T>> Steps<T> for Then<P, F> {
    open spec fn accepts(&self, input: Vec<T>) -> bool {
        &&& self.first.accepts(input)
        &&& forall|mid: Vec<T>|
            #[trigger] self.first.relates(input, mid) ==> call_requires(self.step, (mid,))
    }

    open spec fn relates(&self, input: Vec<T>, output: Vec<T>) -> bool {
        exists|mid: Vec<T>|
            #[trigger] self.first.relates(input, mid) && call_ensures(self.step, (mid,), output)
    }

    fn run(&self, input: Vec<T>) -> (r: Vec<T>) {
        let mid: Vec<T> = self.first.run(input);
        (self.step)(mid)
    }
}

/// What it means to run one step after others.
pub proof fn lemma_then<T, P: Steps<T>, F: Fn(Vec<T>) -> Vec<T>>(
    steps: Then<P, F>,
    input: Vec<T>,
    output: Vec<T>,
)
    ensures
        steps.accepts(input) == (steps.first.accepts(input) && forall|mid: Vec<T>|
            #[trigger] steps.first.relates(input, mid) ==> call_requires(steps.step, (mid,))),
        steps.relates(input, output) == (exists|mid: Vec<T>|
            #[trigger] steps.first.relates(input, mid) && call_ensures(
                steps.step,
                (mid,),
                output,
            )),
{
}

/// Converts org blocks in three stages: the steps over the org blocks, the
/// conversion itself, the steps over the Notion blocks; each stage's steps in
/// the order in which they were added.
pub struct Converter<O, N> {
    pub org_steps: O,
    pub notion_steps: N,
}

impl Converter<NoSteps, NoSteps> {
    /// A converter without steps.
    pub fn new() -> (r: Converter<NoSteps, NoSteps>)
        ensures
            r == (Converter { org_steps: NoSteps, notion_steps: NoSteps }),
    {
        Converter { org_steps: NoSteps, notion_steps: NoSteps }
    }
}

impl<O: Steps<OrgBlock>, N: Steps<Block>> Converter<O, N> {
    /// Whether every step can be run on what reaches it from these blocks.
    pub open spec fn accepts(&self, input: Seq<OrgBlockView>, links: LinkMapView) -> bool {
        forall|i: Vec<OrgBlock>| #[trigger]
            i.deep_view() == input ==> self.org_steps.accepts(i) && forall|m: Vec<OrgBlock>, c: Vec<
                Block,
            >|
                #![trigger self.org_steps.relates(i, m), self.notion_steps.accepts(c)]
                self.org_steps.relates(i, m) && c.deep_view() == blocks_spec(m.deep_view(), links)
                    ==> self.notion_steps.accepts(c)
    }

    /// Whether the pipeline can turn the org blocks into the Notion blocks.
    pub open spec fn relates(
        &self,
        input: Seq<OrgBlockView>,
        links: LinkMapView,
        output: Vec<Block>,
    ) -> bool {
        exists|i: Vec<OrgBlock>, m: Vec<OrgBlock>, c: Vec<Block>|
            #![trigger self.org_steps.relates(i, m), self.notion_steps.relates(c, output)]
            i.deep_view() == input && self.org_steps.relates(i, m) && c.deep_view() == blocks_spec(
                m.deep_view(),
                links,
            ) && self.notion_steps.relates(c, output)
    }

    /// Adds a step that rewrites the org blocks before the conversion.
    pub fn with_org_transformer<F: Fn(Vec<OrgBlock>) -> Vec<OrgBlock>>(self, step: F) -> (r:
        Converter<Then<O, F>, N>)
        ensures
            r.org_steps == (Then { first: self.org_steps, step }),
            r.notion_steps == self.notion_steps,
    {
        Converter {
            org_steps: Then { first: self.org_steps, step },
            notion_steps: self.notion_steps,
        }
    }

    /// Adds a step that rewrites the Notion blocks after the conversion.
    pub fn with_notion_transformer<F: Fn(Vec<Block>) -> Vec<Block>>(self, step: F) -> (r: Converter<
        O,
        Then<N, F>,
    >)
        ensures
            r.org_steps == self.org_steps,
            r.notion_steps == (Then { first: self.notion_steps, step }),
    {
        Converter {
            org_steps: self.org_steps,
            notion_steps: Then { first: self.notion_steps, step },
        }
    }

    /// Runs the whole pipeline.
    pub fn convert(&self, org_blocks: &[OrgBlock], links: &LinkMap) -> (r: Vec<Block>)
        requires
            self.accepts(org_blocks.deep_view(), links.map()),
        ensures
            self.relates(org_blocks.deep_view(), links.map(), r),
    {
        let input: Vec<OrgBlock> = copy_blocks(org_blocks);
        let ghost i = input;
        let rewritten: Vec<OrgBlock> = self.org_steps.run(input);
        let ghost m = rewritten;
        assert(self.org_steps.relates(i, m));
        let converted: Vec<Block> = convert_blocks(rewritten.as_slice(), links);
        let ghost c = converted;
        assert(c.deep_view() =~= blocks_spec(m.deep_view(), links.map()));
        let out: Vec<Block> = self.notion_steps.run(converted);
        assert(self.notion_steps.relates(c, out));
        out
    }
}

fn copy_blocks(v: &[OrgBlock]) -> (r: Vec<OrgBlock>)
    ensures
        r.deep_view() == v.deep_view(),
{
    let mut out: Vec<OrgBlock> = Vec::new();
    let mut i: usize = 0;
    while i < v.len()
        invariant
            i <= v@.len(),
            out.deep_view() == v.deep_view().take(i as int),
        decreases v.len() - i,
    {
        let ghost before = out.deep_view();
        let b: OrgBlock = v[i].clone();
        out.push(b);
        assert(out.deep_view() =~= before.push(b.deep_view()));
        i = i + 1;
    }
    out
}

// ---------------------------------------------------------------------
// Laws
// ---------------------------------------------------------------------

/// Texts one after another.
pub open spec fn concatenated(pieces: Seq<Seq<char>>) -> Seq<char>
    decreases pieces.len(),
{
    if pieces.len() == 0 {
        Seq::<char>::empty()
    } else {
        pieces.first() + concatenated(pieces.drop_first())
    }
}

/// The pieces of a text make up the text, none is longer than Notion takes,
/// and there is at least one.
pub proof fn law_chunks(s: Seq<char>)
    ensures
        concatenated(chunks(s)) == s,
        chunks(s).len() > 0,
        forall|i: int| 0 <= i < chunks(s).len() ==> (#[trigger] chunks(s)[i]).len() <= MAX_TEXT_LEN,
    decreases s.len(),
{
    let c = chunks(s);
    if s.len() <= MAX_TEXT_LEN {
        assert(c.drop_first() =~= Seq::<Seq<char>>::empty());
        assert(concatenated(c.drop_first()) == Seq::<char>::empty());
        assert(concatenated(c) =~= s);
    } else {
        let rest = s.skip(MAX_TEXT_LEN as int);
        law_chunks(rest);
        assert(c.drop_first() =~= chunks(rest));
        assert(concatenated(c) =~= s);
        assert forall|i: int| 0 <= i < c.len() implies (#[trigger] c[i]).len() <= MAX_TEXT_LEN by {
            if i > 0 {
                assert(c[i] == chunks(rest)[i - 1]);
            }
        }
    }
}

/// Whether a run of text is no longer than Notion takes.
pub open spec fn run_fits(run: RichTextView) -> bool {
    run matches RichTextView::Text { content, .. } ==> content.len() <= MAX_TEXT_LEN
}

/// Whether no run is longer than Notion takes.
pub open spec fn runs_fit(runs: Seq<RichTextView>) -> bool {
    forall|i: int| 0 <= i < runs.len() ==> run_fits(#[trigger] runs[i])
}

proof fn lemma_span_runs_fit(s: SpanView, links: LinkMapView)
    ensures
        runs_fit(span_runs(s, links)),
{
    let t = match s {
        SpanView::Text(t) => t,
        SpanView::Marked { text, .. } => text,
        SpanView::LinkRef { id, description } => if links.dom().contains(id) {
            match links[id] {
                LinkTargetView::Page(p) => p,
                LinkTargetView::Block { text, .. } => text,
            }
        } else {
            match description {
                Some(t) => t,
                None => "[[id:"@ + id + "]]"@,
            }
        },
        SpanView::ExternalLink { url, description } => match description {
            Some(t) => t,
            None => url,
        },
    };
    law_chunks(t);
    let runs = span_runs(s, links);
    assert forall|i: int| 0 <= i < runs.len() implies run_fits(#[trigger] runs[i]) by {
        if runs[i] is Text {
            assert(chunks(t)[i].len() <= MAX_TEXT_LEN);
        }
    }
}

proof fn lemma_all_runs_fit(spans: Seq<SpanView>, links: LinkMapView)
    ensures
        runs_fit(all_runs(spans, links)),
    decreases spans.len(),
{
    if spans.len() > 0 {
        lemma_all_runs_fit(spans.drop_last(), links);
        lemma_span_runs_fit(spans.last(), links);
        let (a, b) = (all_runs(spans.drop_last(), links), span_runs(spans.last(), links));
        let r = a + b;
        assert forall|i: int| 0 <= i < r.len() implies run_fits(#[trigger] r[i]) by {
            if i < a.len() {
                assert(r[i] == a[i]);
            } else {
                assert(r[i] == b[i - a.len()]);
            }
        }
    }
}

/// The rich text of a block has at least one run and no more than Notion
/// takes, and no run is longer than Notion takes.
pub proof fn law_rich_text_limits(spans: Seq<SpanView>, links: LinkMapView)
    ensures
        1 <= rich_text_spec(spans, links).len() <= MAX_RICH_TEXT_ITEMS,
        runs_fit(rich_text_spec(spans, links)),
{
    lemma_all_runs_fit(spans, links);
    let runs = all_runs(spans, links);
    let r = rich_text_spec(spans, links);
    if runs.len() == 0 {
        reveal_strlit("");
    }
    assert forall|i: int| 0 <= i < r.len() implies run_fits(#[trigger] r[i]) by {
        if runs.len() > 0 {
            assert(r[i] == runs[i]);
        }
    }
}

/// Conversion gives one Notion block for each org block, and the inline text
/// of a block is that of its spans.
pub proof fn law_one_block_each(bs: Seq<OrgBlockView>, links: LinkMapView)
    ensures
        blocks_spec(bs, links).len() == bs.len(),
        forall|i: int|
            0 <= i < bs.len() ==> blocks::inline_text(#[trigger] blocks_spec(bs, links)[i]) == (
            if bs[i] is CodeBlock {
                None
            } else {
                Some(rich_text_spec(org_parser::spans_of_block(bs[i]), links))
            }),
{
}

/// A converter without steps converts as [`convert_blocks`] does.
pub proof fn law_no_steps(
    c: Converter<NoSteps, NoSteps>,
    input: Seq<OrgBlockView>,
    links: LinkMapView,
    output: Vec<Block>,
)
    ensures
        c.accepts(input, links),
        c.relates(input, links, output) ==> output.deep_view() == blocks_spec(input, links),
{
    if c.relates(input, links, output) {
        let (i, m, k) = choose|i: Vec<OrgBlock>, m: Vec<OrgBlock>, k: Vec<Block>|
            #![trigger c.org_steps.relates(i, m), c.notion_steps.relates(k, output)]
            i.deep_view() == input && c.org_steps.relates(i, m) && k.deep_view() == blocks_spec(
                m.deep_view(),
                links,
            ) && c.notion_steps.relates(k, output);
        assert(i == m);
        assert(k == output);
    }
}

/// A link to a node that has a page becomes a mention of that page.
pub proof fn law_link_becomes_mention(
    spans: Seq<SpanView>,
    links: LinkMapView,
    k: int,
    id: Seq<char>,
    page_id: Seq<char>,
)
    requires
        0 <= k < spans.len(),
        spans[k] matches SpanView::LinkRef { id: target, .. } && target == id,
        links.dom().contains(id),
        links[id] == LinkTargetView::Page(page_id),
        all_runs(spans, links).len() <= MAX_RICH_TEXT_ITEMS,
    ensures
        rich_text_spec(spans, links).contains(mention_run(page_id)),
{
    lemma_mention_in_runs(spans, links, k, page_id);
}

proof fn lemma_mention_in_runs(spans: Seq<SpanView>, links: LinkMapView, k: int, page_id: Seq<char>)
    requires
        0 <= k < spans.len(),
        spans[k] matches SpanView::LinkRef { id, .. } && links.dom().contains(id) && links[id]
            == LinkTargetView::Page(page_id),
    ensures
        all_runs(spans, links).contains(mention_run(page_id)),
    decreases spans.len(),
{
    let (a, b) = (all_runs(spans.drop_last(), links), span_runs(spans.last(), links));
    let r = a + b;
    if k < spans.len() - 1 {
        assert(spans.drop_last()[k] == spans[k]);
        lemma_mention_in_runs(spans.drop_last(), links, k, page_id);
        let m = choose|m: int| 0 <= m < a.len() && a[m] == mention_run(page_id);
        assert(r[m] == mention_run(page_id));
    } else {
        assert(b =~= seq![mention_run(page_id)]);
        assert(r[a.len() as int] == mention_run(page_id));
    }
}

} // verus!
