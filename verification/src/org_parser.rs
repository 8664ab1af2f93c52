//! Org-roam nodes: what is taken from a parsed `.org` file.
//!
//! - the node's ID, from the file-level property drawer or an `#+ID:` keyword
//! - its title: `#+TITLE:`, or the first heading, or the file's name
//! - `[[id:...]]` links to other nodes, without an org `::search-target` suffix
//! - the file-level tags (`#+filetags:`)
//! - its body as coarse blocks: headings, paragraphs, list items, quotes and
//!   source blocks
//!
//! Org constructs without a block of their own become plain paragraphs; none
//! makes the parsing fail.

use crate::org;
use crate::org::{DocumentView, OrgDocument};
use crate::path;
use crate::path::{PathView, VaultPath};
use crate::text;
use crate::text::Separator;
use vstd::prelude::*;
use vstd::string::StringSliceAdditionalSpecFns;

verus! {

// ---------------------------------------------------------------------
// Types
// ---------------------------------------------------------------------

/// Org inline emphasis. `~code~` and `=verbatim=` are both [`Markup::Code`].
#[derive(Debug, Clone, Copy, PartialEq, Eq, Structural)]
pub enum Markup {
    Bold,
    Italic,
    Underline,
    Strikethrough,
    Code,
}

impl DeepView for Markup {
    type V = Markup;

    open spec fn deep_view(&self) -> Markup {
        *self
    }
}

/// A run of inline content.
#[derive(Debug, PartialEq, Eq)]
pub enum Span {
    /// Literal text.
    Text(String),
    /// Emphasized text, without the delimiters.
    Marked { text: String, markup: Markup },
    /// An `[[id:...]]` link to another node.
    LinkRef { id: String, description: Option<String> },
    /// A link to a web page or a mail address.
    ExternalLink { url: String, description: Option<String> },
}

/// The model of a span.
pub enum SpanView {
    Text(Seq<char>),
    Marked { text: Seq<char>, markup: Markup },
    LinkRef { id: Seq<char>, description: Option<Seq<char>> },
    ExternalLink { url: Seq<char>, description: Option<Seq<char>> },
}

impl DeepView for Span {
    type V = SpanView;

    open spec fn deep_view(&self) -> SpanView {
        match self {
            Span::Text(t) => SpanView::Text(t@),
            Span::Marked { text, markup } => SpanView::Marked { text: text@, markup: *markup },
            Span::LinkRef { id, description } => SpanView::LinkRef {
                id: id@,
                description: description.deep_view(),
            },
            Span::ExternalLink { url, description } => SpanView::ExternalLink {
                url: url@,
                description: description.deep_view(),
            },
        }
    }
}

impl Clone for Span {
    fn clone(&self) -> (r: Span)
        ensures
            r.deep_view() == self.deep_view(),
    {
        match self {
            Span::Text(t) => Span::Text(t.clone()),
            Span::Marked { text, markup } => Span::Marked { text: text.clone(), markup: *markup },
            Span::LinkRef { id, description } => Span::LinkRef {
                id: id.clone(),
                description: description.clone(),
            },
            Span::ExternalLink { url, description } => Span::ExternalLink {
                url: url.clone(),
                description: description.clone(),
            },
        }
    }
}

fn copy_spans(v: &Vec<Span>) -> (r: Vec<Span>)
    ensures
        r.deep_view() == v.deep_view(),
{
    let mut out: Vec<Span> = Vec::new();
    let mut i: usize = 0;
    while i < v.len()
        invariant
            i <= v@.len(),
            out.deep_view() == v.deep_view().take(i as int),
        decreases v.len() - i,
    {
        let ghost before = out.deep_view();
        let s: Span = v[i].clone();
        out.push(s);
        assert(out.deep_view() =~= before.push(s.deep_view()));
        i = i + 1;
    }
    out
}

/// A coarse content block.
#[derive(Debug, PartialEq, Eq)]
pub enum OrgBlock {
    /// `* Heading`; the level is the number of stars.
    Heading { level: u8, spans: Vec<Span> },
    /// A run of contiguous plain-text lines.
    Paragraph { spans: Vec<Span> },
    /// `- item` / `+ item`.
    BulletItem { spans: Vec<Span> },
    /// `1. item` / `1) item`.
    NumberedItem { spans: Vec<Span> },
    /// `#+BEGIN_QUOTE` ... `#+END_QUOTE`.
    Quote { spans: Vec<Span> },
    /// `#+BEGIN_SRC lang` ... `#+END_SRC`.
    CodeBlock { language: Option<String>, content: String },
}

/// The model of a block.
pub enum OrgBlockView {
    Heading { level: u8, spans: Seq<SpanView> },
    Paragraph { spans: Seq<SpanView> },
    BulletItem { spans: Seq<SpanView> },
    NumberedItem { spans: Seq<SpanView> },
    Quote { spans: Seq<SpanView> },
    CodeBlock { language: Option<Seq<char>>, content: Seq<char> },
}

impl DeepView for OrgBlock {
    type V = OrgBlockView;

    open spec fn deep_view(&self) -> OrgBlockView {
        match self {
            OrgBlock::Heading { level, spans } => OrgBlockView::Heading {
                level: *level,
                spans: spans.deep_view(),
            },
            OrgBlock::Paragraph { spans } => OrgBlockView::Paragraph { spans: spans.deep_view() },
            OrgBlock::BulletItem { spans } => OrgBlockView::BulletItem {
                spans: spans.deep_view(),
            },
            OrgBlock::NumberedItem { spans } => OrgBlockView::NumberedItem {
                spans: spans.deep_view(),
            },
            OrgBlock::Quote { spans } => OrgBlockView::Quote { spans: spans.deep_view() },
            OrgBlock::CodeBlock { language, content } => OrgBlockView::CodeBlock {
                language: language.deep_view(),
                content: content@,
            },
        }
    }
}

impl Clone for OrgBlock {
    fn clone(&self) -> (r: OrgBlock)
        ensures
            r.deep_view() == self.deep_view(),
    {
        match self {
            OrgBlock::Heading { level, spans } => OrgBlock::Heading {
                level: *level,
                spans: copy_spans(spans),
            },
            OrgBlock::Paragraph { spans } => OrgBlock::Paragraph { spans: copy_spans(spans) },
            OrgBlock::BulletItem { spans } => OrgBlock::BulletItem { spans: copy_spans(spans) },
            OrgBlock::NumberedItem { spans } => OrgBlock::NumberedItem { spans: copy_spans(spans) },
            OrgBlock::Quote { spans } => OrgBlock::Quote { spans: copy_spans(spans) },
            OrgBlock::CodeBlock { language, content } => OrgBlock::CodeBlock {
                language: language.clone(),
                content: content.clone(),
            },
        }
    }
}

/// A single org-roam node, parsed from one `.org` file.
#[derive(Debug, PartialEq, Eq)]
pub struct Node {
    /// The org-roam ID.
    pub id: String,
    /// Path of the source file.
    pub file_path: VaultPath,
    /// Display title.
    pub title: String,
    /// IDs of the nodes this node links to, each once, in order of first
    /// appearance.
    pub links: Vec<String>,
    /// File-level tags, without the `:` delimiters.
    pub tags: Vec<String>,
    /// The body.
    pub blocks: Vec<OrgBlock>,
}

/// The model of a node.
pub struct NodeView {
    pub id: Seq<char>,
    pub file_path: PathView,
    pub title: Seq<char>,
    pub links: Seq<Seq<char>>,
    pub tags: Seq<Seq<char>>,
    pub blocks: Seq<OrgBlockView>,
}

impl DeepView for Node {
    type V = NodeView;

    open spec fn deep_view(&self) -> NodeView {
        NodeView {
            id: self.id@,
            file_path: self.file_path.deep_view(),
            title: self.title@,
            links: self.links.deep_view(),
            tags: self.tags.deep_view(),
            blocks: self.blocks.deep_view(),
        }
    }
}

/// Failure to parse one `.org` file into a node.
#[derive(Debug, PartialEq, Eq)]
pub enum ParseError {
    /// The file has neither an `:ID:` property nor an `#+ID:` keyword.
    MissingId { path: VaultPath },
}

/// What a [`ParseError`] says of the file at `p`.
pub open spec fn missing_id_message(p: PathView) -> Seq<char> {
    path::display(p) + ": missing :ID: property (or #+ID: keyword) in file preamble"@
}

impl ParseError {
    /// The error as text.
    pub fn message(&self) -> (r: String)
        ensures
            match self {
                ParseError::MissingId { path } => r@ == missing_id_message(path.deep_view()),
            },
    {
        match self {
            ParseError::MissingId { path } => text::concat2(
                path.to_text().as_str(),
                ": missing :ID: property (or #+ID: keyword) in file preamble",
            ),
        }
    }
}

/// The inline content of a block; a code block has none.
pub open spec fn spans_of_block(b: OrgBlockView) -> Seq<SpanView> {
    match b {
        OrgBlockView::Heading { spans, .. } => spans,
        OrgBlockView::Paragraph { spans } => spans,
        OrgBlockView::BulletItem { spans } => spans,
        OrgBlockView::NumberedItem { spans } => spans,
        OrgBlockView::Quote { spans } => spans,
        OrgBlockView::CodeBlock { .. } => Seq::<SpanView>::empty(),
    }
}

// ---------------------------------------------------------------------
// Building spans
// ---------------------------------------------------------------------

/// Accumulates inline content into spans: adjacent text of the same markup
/// becomes one span, and a change of markup or a link ends it.
pub struct SpanBuilder {
    pub spans: Vec<Span>,
    pub buf: String,
    pub markup: Option<Markup>,
}

/// The model of a builder.
#[verifier::ext_equal]
pub struct BuilderView {
    pub spans: Seq<SpanView>,
    pub buf: Seq<char>,
    pub markup: Option<Markup>,
}

impl DeepView for SpanBuilder {
    type V = BuilderView;

    open spec fn deep_view(&self) -> BuilderView {
        BuilderView { spans: self.spans.deep_view(), buf: self.buf@, markup: self.markup }
    }
}

/// The text with each line feed turned into a space.
pub open spec fn one_line(s: Seq<char>) -> Seq<char> {
    s.map_values(|c: char| if c == '\n' { ' ' } else { c })
}

/// A builder that holds nothing.
pub open spec fn empty_builder() -> BuilderView {
    BuilderView { spans: Seq::<SpanView>::empty(), buf: Seq::<char>::empty(), markup: None }
}

/// The text gathered so far becomes a span, where there is any.
pub open spec fn flushed(b: BuilderView) -> BuilderView {
    if b.buf.len() == 0 {
        b
    } else {
        BuilderView {
            spans: b.spans.push(
                match b.markup {
                    None => SpanView::Text(one_line(b.buf)),
                    Some(markup) => SpanView::Marked { text: one_line(b.buf), markup },
                },
            ),
            buf: Seq::<char>::empty(),
            markup: b.markup,
        }
    }
}

/// The builder after `s` was added with the given markup.
pub open spec fn with_text(b: BuilderView, s: Seq<char>, markup: Option<Markup>) -> BuilderView {
    if markup == b.markup {
        BuilderView { buf: b.buf + s, ..b }
    } else {
        let f = flushed(b);
        BuilderView { spans: f.spans, buf: f.buf + s, markup }
    }
}

/// The builder after a whole span was added.
pub open spec fn with_span(b: BuilderView, s: SpanView) -> BuilderView {
    let f = flushed(b);
    BuilderView { spans: f.spans.push(s), ..f }
}

/// The text of a span that holds text of its own.
pub open spec fn own_text(s: SpanView) -> Option<Seq<char>> {
    match s {
        SpanView::Text(t) => Some(t),
        SpanView::Marked { text, .. } => Some(text),
        _ => None,
    }
}

/// The span with another text.
pub open spec fn with_own_text(s: SpanView, t: Seq<char>) -> SpanView {
    match s {
        SpanView::Text(_) => SpanView::Text(t),
        SpanView::Marked { text: _, markup } => SpanView::Marked { text: t, markup },
        other => other,
    }
}

/// The spans without white space at their end: a last span of text loses its
/// own, and goes where nothing is left of it.
pub open spec fn without_trailing_space(spans: Seq<SpanView>) -> Seq<SpanView> {
    if spans.len() == 0 {
        spans
    } else {
        match own_text(spans.last()) {
            Some(t) => {
                let rest = text::trim_end(t);
                if rest.len() == 0 {
                    spans.drop_last()
                } else {
                    spans.drop_last().push(with_own_text(spans.last(), rest))
                }
            },
            None => spans,
        }
    }
}

/// The spans a builder ends with: at least one, which is empty where there is
/// no content.
pub open spec fn finished(b: BuilderView) -> Seq<SpanView> {
    let s = without_trailing_space(flushed(b).spans);
    if s.len() == 0 {
        seq![SpanView::Text(Seq::<char>::empty())]
    } else {
        s
    }
}

fn same_markup(a: Option<Markup>, b: Option<Markup>) -> (r: bool)
    ensures
        r == (a == b),
{
    match (a, b) {
        (None, None) => true,
        (Some(x), Some(y)) => x == y,
        _ => false,
    }
}

fn to_one_line(s: &str) -> (r: String)
    ensures
        r@ == one_line(s@),
{
    let cs: Vec<char> = text::chars_of(s);
    let mut out: String = String::new();
    let mut i: usize = 0;
    while i < cs.len()
        invariant
            i <= cs@.len(),
            cs@ == s@,
            out@ == one_line(s@.take(i as int)),
        decreases cs.len() - i,
    {
        let c: char = if cs[i] == '\n' { ' ' } else { cs[i] };
        out.push(c);
        i = i + 1;
        assert(out@ =~= one_line(s@.take(i as int)));
    }
    assert(s@.take(i as int) =~= s@);
    out
}

impl SpanBuilder {
    /// A builder that holds nothing.
    pub fn new() -> (r: SpanBuilder)
        ensures
            r.deep_view() == empty_builder(),
    {
        SpanBuilder { spans: Vec::new(), buf: String::new(), markup: None }
    }

    /// Adds text with the given markup.
    pub fn push_str(&mut self, s: &str, markup: Option<Markup>)
        ensures
            final(self).deep_view() == with_text(old(self).deep_view(), s@, markup),
    {
        if !same_markup(markup, self.markup) {
            self.flush();
            self.markup = markup;
        }
        self.buf.append(s);
    }

    /// Adds a whole span.
    pub fn push_span(&mut self, span: Span)
        ensures
            final(self).deep_view() == with_span(old(self).deep_view(), span.deep_view()),
    {
        self.flush();
        let ghost before = self.spans.deep_view();
        self.spans.push(span);
        assert(self.spans.deep_view() =~= before.push(span.deep_view()));
    }

    /// Ends the text gathered so far.
    pub fn flush(&mut self)
        ensures
            final(self).deep_view() == flushed(old(self).deep_view()),
    {
        if self.buf.as_str().unicode_len() == 0 {
            return;
        }
        let ghost before = self.spans.deep_view();
        let line: String = to_one_line(self.buf.as_str());
        self.buf = String::new();
        let span: Span = match self.markup {
            None => Span::Text(line),
            Some(markup) => Span::Marked { text: line, markup },
        };
        self.spans.push(span);
        assert(self.spans.deep_view() =~= before.push(span.deep_view()));
    }

    /// The spans, without white space at their end.
    pub fn finish(self) -> (r: Vec<Span>)
        ensures
            r.deep_view() == finished(self.deep_view()),
    {
        let mut b: SpanBuilder = self;
        b.flush();
        let mut spans: Vec<Span> = b.spans;
        let ghost all = spans.deep_view();
        if spans.len() > 0 {
            let last: Span = spans.pop().unwrap();
            assert(all.last() == last.deep_view());
            assert(spans.deep_view() =~= all.drop_last());
            let kept: Option<Span> = match last {
                Span::Text(t) => {
                    let rest: String = text::trimmed_end(t.as_str());
                    if rest.as_str().unicode_len() == 0 {
                        None
                    } else {
                        Some(Span::Text(rest))
                    }
                },
                Span::Marked { text: t, markup } => {
                    let rest: String = text::trimmed_end(t.as_str());
                    if rest.as_str().unicode_len() == 0 {
                        None
                    } else {
                        Some(Span::Marked { text: rest, markup })
                    }
                },
                Span::LinkRef { id, description } => Some(Span::LinkRef { id, description }),
                Span::ExternalLink { url, description } => Some(
                    Span::ExternalLink { url, description },
                ),
            };
            match kept {
                Some(s) => {
                    spans.push(s);
                    assert(spans.deep_view() =~= all.drop_last().push(s.deep_view()));
                },
                None => {},
            }
            assert(spans.deep_view() =~= without_trailing_space(all));
        }
        if spans.len() == 0 {
            spans.push(Span::Text(String::new()));
            assert(spans.deep_view() =~= seq![SpanView::Text(Seq::<char>::empty())]);
        }
        spans
    }
}

// ---------------------------------------------------------------------
// Inline content
// ---------------------------------------------------------------------

/// The emphasis of a node kind, and the kind of the tokens that delimit it.
pub open spec fn emphasis_of(kind: Seq<char>) -> Option<(Markup, Seq<char>)> {
    if kind == "BOLD"@ {
        Some((Markup::Bold, "STAR"@))
    } else if kind == "ITALIC"@ {
        Some((Markup::Italic, "SLASH"@))
    } else if kind == "UNDERLINE"@ {
        Some((Markup::Underline, "UNDERSCORE"@))
    } else if kind == "STRIKE"@ {
        Some((Markup::Strikethrough, "PLUS"@))
    } else if kind == "CODE"@ {
        Some((Markup::Code, "TILDE"@))
    } else if kind == "VERBATIM"@ {
        Some((Markup::Code, "EQUAL"@))
    } else {
        None
    }
}

fn markup_of(kind: &str) -> (r: Option<(Markup, &'static str)>)
    ensures
        match r {
            Some((m, delimiter)) => emphasis_of(kind@) == Some((m, delimiter@)),
            None => emphasis_of(kind@) is None,
        },
{
    if text::same_text(kind, "BOLD") {
        Some((Markup::Bold, "STAR"))
    } else if text::same_text(kind, "ITALIC") {
        Some((Markup::Italic, "SLASH"))
    } else if text::same_text(kind, "UNDERLINE") {
        Some((Markup::Underline, "UNDERSCORE"))
    } else if text::same_text(kind, "STRIKE") {
        Some((Markup::Strikethrough, "PLUS"))
    } else if text::same_text(kind, "CODE") {
        Some((Markup::Code, "TILDE"))
    } else if text::same_text(kind, "VERBATIM") {
        Some((Markup::Code, "EQUAL"))
    } else {
        None
    }
}

/// Whether a link path names a web page or a mail address.
pub open spec fn is_external(p: Seq<char>) -> bool {
    text::starts_with(p, "https://"@) || text::starts_with(p, "http://"@) || text::starts_with(
        p,
        "mailto:"@,
    )
}

/// The node ID of a link path that starts with `id:`: what follows, up to an
/// org search target.
pub open spec fn link_id(p: Seq<char>) -> Seq<char> {
    text::before_first(p.skip(3), "::"@)
}

/// The builder after a link.
pub open spec fn with_link(
    b: BuilderView,
    p: Seq<char>,
    has_description: bool,
    raw: Seq<char>,
    markup: Option<Markup>,
) -> BuilderView {
    let description = if has_description { Some(raw) } else { None };
    if text::starts_with(p, "id:"@) {
        with_span(b, SpanView::LinkRef { id: link_id(p), description })
    } else if is_external(p) {
        with_span(b, SpanView::ExternalLink { url: p, description })
    } else if has_description {
        with_text(b, raw, markup)
    } else {
        with_text(b, p, markup)
    }
}

/// The builder after the element at `p`.
pub open spec fn visited(
    d: DocumentView,
    p: int,
    hi: int,
    b: BuilderView,
    markup: Option<Markup>,
) -> BuilderView
    decreases org::end_of(d, p, hi) - p, 0int,
    when p < hi
{
    proof {
        org::lemma_end_of(d, p, hi);
    }
    let (_, kind, token) = d.elements[p];
    let end = org::end_of(d, p, hi);
    match token {
        Some(t) => if kind == "BLANK_LINE"@ {
            b
        } else {
            with_text(b, t, markup)
        },
        None => if kind == "LINK"@ {
            if p < d.links.len() && d.links[p] is Some {
                let (path, has, raw) = d.links[p]->0;
                with_link(b, path, has, raw, markup)
            } else {
                b
            }
        } else {
            match emphasis_of(kind) {
                Some((inner, delimiter)) => visited_all(
                    d,
                    p + 1,
                    end,
                    b,
                    Some(inner),
                    Some(delimiter),
                ),
                None => visited_all(d, p + 1, end, b, markup, None),
            }
        },
    }
}

/// The builder after the subtrees in `lo..hi`, the tokens of kind `skip` left
/// out.
pub open spec fn visited_all(
    d: DocumentView,
    lo: int,
    hi: int,
    b: BuilderView,
    markup: Option<Markup>,
    skip: Option<Seq<char>>,
) -> BuilderView
    decreases hi - lo, 1int,
{
    if lo >= hi {
        b
    } else {
        proof {
            org::lemma_end_of(d, lo, hi);
        }
        let next = if d.elements[lo].2 is Some && skip == Some(d.elements[lo].1) {
            b
        } else {
            visited(d, lo, hi, b, markup)
        };
        visited_all(d, org::end_of(d, lo, hi), hi, next, markup, skip)
    }
}

/// The spans of the subtrees in `lo..hi`.
pub open spec fn spans_in(d: DocumentView, lo: int, hi: int) -> Seq<SpanView> {
    finished(visited_all(d, lo, hi, empty_builder(), None, None))
}

fn visit_link(doc: &OrgDocument, p: usize, builder: &mut SpanBuilder, markup: Option<Markup>)
    ensures
        final(builder).deep_view() == (if p < doc.links.deep_view().len()
            && doc.links.deep_view()[p as int] is Some {
            let (path, has, raw) = doc.links.deep_view()[p as int]->0;
            with_link(old(builder).deep_view(), path, has, raw, markup)
        } else {
            old(builder).deep_view()
        }),
{
    if p >= doc.links.len() {
        return;
    }
    match &doc.links[p] {
        None => {},
        Some((path, has_description, raw)) => {
            let description: Option<String> = if *has_description {
                Some(raw.clone())
            } else {
                None
            };
            if text::has_prefix(path.as_str(), "id:") {
                proof {
                    reveal_strlit("id:");
                }
                let below: String = text::skip_chars(path.as_str(), 3);
                let id: String = text::cut_at(below.as_str(), "::");
                builder.push_span(Span::LinkRef { id, description });
            } else if text::has_prefix(path.as_str(), "https://") || text::has_prefix(
                path.as_str(),
                "http://",
            ) || text::has_prefix(path.as_str(), "mailto:") {
                builder.push_span(Span::ExternalLink { url: path.clone(), description });
            } else if *has_description {
                builder.push_str(raw.as_str(), markup);
            } else {
                builder.push_str(path.as_str(), markup);
            }
        },
    }
}

fn visit_element(
    doc: &OrgDocument,
    p: usize,
    hi: usize,
    builder: &mut SpanBuilder,
    markup: Option<Markup>,
)
    requires
        p < hi <= doc.elements@.len(),
    ensures
        final(builder).deep_view() == visited(
            doc.deep_view(),
            p as int,
            hi as int,
            old(builder).deep_view(),
            markup,
        ),
    decreases org::end_of(doc.deep_view(), p as int, hi as int) - p, 0int,
{
    let ghost d = doc.deep_view();
    assert(d.elements[p as int] == doc.elements[p as int].deep_view());
    let end: usize = doc.subtree_end(p, hi);
    match &doc.elements[p].text {
        Some(t) => {
            if !text::same_text(doc.elements[p].kind.as_str(), "BLANK_LINE") {
                builder.push_str(t.as_str(), markup);
            }
        },
        None => {
            if text::same_text(doc.elements[p].kind.as_str(), "LINK") {
                visit_link(doc, p, builder, markup);
            } else {
                match markup_of(doc.elements[p].kind.as_str()) {
                    Some((inner, delimiter)) => {
                        visit_all(doc, p + 1, end, builder, Some(inner), Some(delimiter));
                    },
                    None => {
                        visit_all(doc, p + 1, end, builder, markup, None);
                    },
                }
            }
        },
    }
}

fn visit_all(
    doc: &OrgDocument,
    lo: usize,
    hi: usize,
    builder: &mut SpanBuilder,
    markup: Option<Markup>,
    skip: Option<&str>,
)
    requires
        lo <= hi <= doc.elements@.len(),
    ensures
        final(builder).deep_view() == visited_all(
            doc.deep_view(),
            lo as int,
            hi as int,
            old(builder).deep_view(),
            markup,
            skip.deep_view(),
        ),
    decreases hi - lo, 1int,
{
    let ghost d = doc.deep_view();
    let ghost all = visited_all(
        d,
        lo as int,
        hi as int,
        builder.deep_view(),
        markup,
        skip.deep_view(),
    );
    let mut q: usize = lo;
    while q < hi
        invariant
            d == doc.deep_view(),
            lo <= q <= hi <= doc.elements@.len(),
            all == visited_all(
                d,
                q as int,
                hi as int,
                builder.deep_view(),
                markup,
                skip.deep_view(),
            ),
        decreases hi - q,
    {
        assert(d.elements[q as int] == doc.elements[q as int].deep_view());
        let next: usize = doc.subtree_end(q, hi);
        let skipped: bool = match skip {
            Some(kind) => doc.elements[q].text.is_some() && text::same_text(
                kind,
                doc.elements[q].kind.as_str(),
            ),
            None => false,
        };
        if !skipped {
            visit_element(doc, q, hi, builder, markup);
        }
        q = next;
    }
}

fn spans_of_elements(doc: &OrgDocument, lo: usize, hi: usize) -> (r: Vec<Span>)
    requires
        lo <= hi <= doc.elements@.len(),
    ensures
        r.deep_view() == spans_in(doc.deep_view(), lo as int, hi as int),
{
    let mut builder: SpanBuilder = SpanBuilder::new();
    visit_all(doc, lo, hi, &mut builder, None, None);
    builder.finish()
}

// ---------------------------------------------------------------------
// Blocks
// ---------------------------------------------------------------------

/// Whether a span is white space and nothing else.
pub open spec fn is_blank_span(s: SpanView) -> bool {
    match own_text(s) {
        Some(t) => text::trim(t).len() == 0,
        None => false,
    }
}

/// Whether the spans hold white space and nothing else.
pub open spec fn all_blank(spans: Seq<SpanView>) -> bool {
    forall|i: int| 0 <= i < spans.len() ==> is_blank_span(#[trigger] spans[i])
}

fn is_effectively_empty(spans: &Vec<Span>) -> (r: bool)
    ensures
        r == all_blank(spans.deep_view()),
{
    let mut i: usize = 0;
    while i < spans.len()
        invariant
            i <= spans@.len(),
            forall|j: int| 0 <= j < i ==> is_blank_span(#[trigger] spans.deep_view()[j]),
        decreases spans.len() - i,
    {
        assert(spans.deep_view()[i as int] == spans[i as int].deep_view());
        let blank: bool = match &spans[i] {
            Span::Text(t) => text::trimmed(t.as_str()).as_str().unicode_len() == 0,
            Span::Marked { text: t, .. } => text::trimmed(t.as_str()).as_str().unicode_len() == 0,
            _ => false,
        };
        if !blank {
            return false;
        }
        i = i + 1;
    }
    true
}

/// Whether a list item is numbered: its first bullet token starts with a
/// digit, white space aside.
pub open spec fn is_ordered(d: DocumentView, lo: int, hi: int) -> bool
    decreases hi - lo,
{
    if lo >= hi {
        false
    } else if d.elements[lo].2 is Some && d.elements[lo].1 == "LIST_ITEM_BULLET"@ {
        let t = text::trim_start(d.elements[lo].2->0);
        t.len() > 0 && '0' <= t[0] && t[0] <= '9'
    } else {
        proof {
            org::lemma_end_of(d, lo, hi);
        }
        is_ordered(d, org::end_of(d, lo, hi), hi)
    }
}

/// The block of the first paragraph of a list item's content.
pub open spec fn item_paragraph(d: DocumentView, lo: int, hi: int, ordered: bool) -> Seq<
    OrgBlockView,
> {
    match org::first_child(d, lo, hi, "PARAGRAPH"@) {
        Some(p) => {
            let spans = spans_in(d, p + 1, org::end_of(d, p, hi));
            if ordered {
                seq![OrgBlockView::NumberedItem { spans }]
            } else {
                seq![OrgBlockView::BulletItem { spans }]
            }
        },
        None => Seq::<OrgBlockView>::empty(),
    }
}

/// The blocks of the list items among the subtrees in `lo..hi`. An item gives a
/// block of its first paragraph and then the blocks of the rest of its content,
/// the lists nested in it among them.
pub open spec fn list_blocks(d: DocumentView, lo: int, hi: int) -> Seq<OrgBlockView>
    decreases hi - lo, 0int,
{
    if lo >= hi {
        Seq::<OrgBlockView>::empty()
    } else {
        proof {
            org::lemma_end_of(d, lo, hi);
        }
        let end = org::end_of(d, lo, hi);
        let rest = list_blocks(d, end, hi);
        if org::is_node(d, lo, "LIST_ITEM"@) {
            match org::first_child(d, lo + 1, end, "LIST_ITEM_CONTENT"@) {
                Some(c) => {
                    proof {
                        org::lemma_first_child(d, lo + 1, end, "LIST_ITEM_CONTENT"@);
                        org::lemma_end_of(d, c, end);
                    }
                    let content_end = org::end_of(d, c, end);
                    item_paragraph(d, c + 1, content_end, is_ordered(d, lo + 1, end))
                        + content_blocks(
                        d,
                        c + 1,
                        content_end,
                        org::first_child(d, c + 1, content_end, "PARAGRAPH"@),
                    ) + rest
                },
                None => rest,
            }
        } else {
            rest
        }
    }
}

/// Whether nodes of a kind say something of the document but are no part of its
/// text: drawers, keywords and comments.
pub open spec fn is_silent(kind: Seq<char>) -> bool {
    kind == "DRAWER"@ || kind == "PROPERTY_DRAWER"@ || kind == "KEYWORD"@ || kind
        == "AFFILIATED_KEYWORD"@ || kind == "BABEL_CALL"@ || kind == "COMMENT"@ || kind
        == "COMMENT_BLOCK"@
}

/// Whether the element at `p` is a node that has a block of its own.
pub open spec fn has_own_block(d: DocumentView, p: int) -> bool {
    ||| org::is_node(d, p, "PARAGRAPH"@)
    ||| org::is_node(d, p, "LIST"@)
    ||| org::is_node(d, p, "QUOTE_BLOCK"@)
    ||| org::is_node(d, p, "SOURCE_BLOCK"@) && p < d.sources.len() && d.sources[p] is Some
}

/// A paragraph of the spans, unless they hold white space and nothing else.
pub open spec fn plain_paragraph(spans: Seq<SpanView>) -> Seq<OrgBlockView> {
    if all_blank(spans) {
        Seq::<OrgBlockView>::empty()
    } else {
        seq![OrgBlockView::Paragraph { spans }]
    }
}

/// The blocks that one child of a section, or of the content of a list item,
/// gives. A construct without a block of its own, such as a table, becomes a
/// paragraph of its text.
pub open spec fn child_blocks(d: DocumentView, p: int, hi: int) -> Seq<OrgBlockView>
    decreases hi - p, 0int,
{
    let end = org::end_of(d, p, hi);
    if p >= hi {
        Seq::<OrgBlockView>::empty()
    } else if org::is_node(d, p, "PARAGRAPH"@) {
        plain_paragraph(spans_in(d, p + 1, end))
    } else if org::is_node(d, p, "LIST"@) {
        proof {
            org::lemma_end_of(d, p, hi);
        }
        list_blocks(d, p + 1, end)
    } else if org::is_node(d, p, "QUOTE_BLOCK"@) {
        match org::first_child(d, p + 1, end, "BLOCK_CONTENT"@) {
            Some(c) => seq![
                OrgBlockView::Quote { spans: spans_in(d, c + 1, org::end_of(d, c, end)) },
            ],
            None => seq![
                OrgBlockView::Quote { spans: seq![SpanView::Text(Seq::<char>::empty())] },
            ],
        }
    } else if org::is_node(d, p, "SOURCE_BLOCK"@) && p < d.sources.len() && d.sources[p] is Some {
        let (language, value) = d.sources[p]->0;
        seq![OrgBlockView::CodeBlock { language, content: text::trim_end_newlines(value) }]
    } else if d.elements[p].2 is Some || is_silent(d.elements[p].1) {
        Seq::<OrgBlockView>::empty()
    } else {
        plain_paragraph(spans_in(d, p + 1, end))
    }
}

/// The blocks of the subtrees in `lo..hi`, but for the one at `skip`.
pub open spec fn content_blocks(d: DocumentView, lo: int, hi: int, skip: Option<int>) -> Seq<
    OrgBlockView,
>
    decreases hi - lo, 1int,
{
    if lo >= hi {
        Seq::<OrgBlockView>::empty()
    } else {
        proof {
            org::lemma_end_of(d, lo, hi);
        }
        let rest = content_blocks(d, org::end_of(d, lo, hi), hi, skip);
        if skip == Some(lo) {
            rest
        } else {
            child_blocks(d, lo, hi) + rest
        }
    }
}

/// The blocks of a section whose children are the subtrees in `lo..hi`.
pub open spec fn section_blocks(d: DocumentView, lo: int, hi: int) -> Seq<OrgBlockView> {
    content_blocks(d, lo, hi, None)
}

/// The blocks of the first section among the subtrees in `lo..hi`.
pub open spec fn first_section(d: DocumentView, lo: int, hi: int) -> Seq<OrgBlockView> {
    match org::first_child(d, lo, hi, "SECTION"@) {
        Some(s) => section_blocks(d, s + 1, org::end_of(d, s, hi)),
        None => Seq::<OrgBlockView>::empty(),
    }
}

/// The heading of a headline whose children are the subtrees in `lo..hi`.
pub open spec fn heading_block(d: DocumentView, p: int, lo: int, hi: int) -> OrgBlockView {
    let level: u8 = if p < d.levels.len() && d.levels[p] is Some {
        if d.levels[p]->0 <= 255 {
            d.levels[p]->0 as u8
        } else {
            255u8
        }
    } else {
        0u8
    };
    let spans = match org::first_child(d, lo, hi, "HEADLINE_TITLE"@) {
        Some(t) => spans_in(d, t + 1, org::end_of(d, t, hi)),
        None => finished(empty_builder()),
    };
    OrgBlockView::Heading { level, spans }
}

/// The blocks of the headlines among the subtrees in `lo..hi`: each gives its
/// heading, its section and the headlines below it.
pub open spec fn headline_blocks(d: DocumentView, lo: int, hi: int) -> Seq<OrgBlockView>
    decreases hi - lo,
{
    if lo >= hi {
        Seq::<OrgBlockView>::empty()
    } else {
        proof {
            org::lemma_end_of(d, lo, hi);
        }
        let end = org::end_of(d, lo, hi);
        let rest = headline_blocks(d, end, hi);
        if org::is_node(d, lo, "HEADLINE"@) {
            seq![heading_block(d, lo, lo + 1, end)] + first_section(d, lo + 1, end)
                + headline_blocks(d, lo + 1, end) + rest
        } else {
            rest
        }
    }
}

/// The blocks of a document.
pub open spec fn document_blocks(d: DocumentView) -> Seq<OrgBlockView> {
    let n = d.elements.len() as int;
    if n == 0 {
        Seq::<OrgBlockView>::empty()
    } else {
        let end = org::end_of(d, 0, n);
        first_section(d, 1, end) + headline_blocks(d, 1, end)
    }
}

fn push_block(blocks: &mut Vec<OrgBlock>, block: OrgBlock)
    ensures
        final(blocks).deep_view() == old(blocks).deep_view().push(block.deep_view()),
{
    let ghost before = blocks.deep_view();
    blocks.push(block);
    assert(blocks.deep_view() =~= before.push(block.deep_view()));
}

fn item_is_ordered(doc: &OrgDocument, lo: usize, hi: usize) -> (r: bool)
    requires
        lo <= hi <= doc.elements@.len(),
    ensures
        r == is_ordered(doc.deep_view(), lo as int, hi as int),
{
    let ghost d = doc.deep_view();
    let mut q: usize = lo;
    while q < hi
        invariant
            d == doc.deep_view(),
            lo <= q <= hi <= doc.elements@.len(),
            is_ordered(d, q as int, hi as int) == is_ordered(d, lo as int, hi as int),
        decreases hi - q,
    {
        assert(d.elements[q as int] == doc.elements[q as int].deep_view());
        if text::same_text(doc.elements[q].kind.as_str(), "LIST_ITEM_BULLET") {
            match &doc.elements[q].text {
                Some(t) => {
                    let cs: Vec<char> = text::chars_of(text::trimmed_start(t.as_str()).as_str());
                    return cs.len() > 0 && '0' <= cs[0] && cs[0] <= '9';
                },
                None => {},
            }
        }
        q = doc.subtree_end(q, hi);
    }
    false
}

fn walk_list(doc: &OrgDocument, lo: usize, hi: usize, blocks: &mut Vec<OrgBlock>)
    requires
        lo <= hi <= doc.elements@.len(),
    ensures
        final(blocks).deep_view() == old(blocks).deep_view() + list_blocks(
            doc.deep_view(),
            lo as int,
            hi as int,
        ),
    decreases hi - lo, 0int,
{
    let ghost d = doc.deep_view();
    let ghost all = blocks.deep_view() + list_blocks(d, lo as int, hi as int);
    let mut q: usize = lo;
    while q < hi
        invariant
            d == doc.deep_view(),
            lo <= q <= hi <= doc.elements@.len(),
            all == blocks.deep_view() + list_blocks(d, q as int, hi as int),
        decreases hi - q,
    {
        let end: usize = doc.subtree_end(q, hi);
        let ghost before = blocks.deep_view();
        let ghost rest = list_blocks(d, end as int, hi as int);
        if doc.node_at(q, "LIST_ITEM") {
            match doc.child(q + 1, end, "LIST_ITEM_CONTENT") {
                Some(c) => {
                    let ordered: bool = item_is_ordered(doc, q + 1, end);
                    let content_end: usize = doc.subtree_end(c, end);
                    let first: Option<usize> = doc.child(c + 1, content_end, "PARAGRAPH");
                    match first {
                        Some(p) => {
                            let p_end: usize = doc.subtree_end(p, content_end);
                            let spans: Vec<Span> = spans_of_elements(doc, p + 1, p_end);
                            if ordered {
                                push_block(blocks, OrgBlock::NumberedItem { spans });
                            } else {
                                push_block(blocks, OrgBlock::BulletItem { spans });
                            }
                        },
                        None => {},
                    }
                    let ghost own = item_paragraph(d, c + 1, content_end as int, ordered);
                    assert(blocks.deep_view() =~= before + own);
                    walk_content(doc, c + 1, content_end, first, blocks);
                    assert(before + (own + content_blocks(
                        d,
                        c + 1,
                        content_end as int,
                        position(first),
                    ) + rest) =~= blocks.deep_view() + rest);
                },
                None => {},
            }
        }
        assert(all =~= blocks.deep_view() + rest);
        q = end;
    }
    assert(all =~= blocks.deep_view());
}

fn silent(kind: &str) -> (r: bool)
    ensures
        r == is_silent(kind@),
{
    text::same_text(kind, "DRAWER") || text::same_text(kind, "PROPERTY_DRAWER")
        || text::same_text(kind, "KEYWORD") || text::same_text(kind, "AFFILIATED_KEYWORD")
        || text::same_text(kind, "BABEL_CALL") || text::same_text(kind, "COMMENT")
        || text::same_text(kind, "COMMENT_BLOCK")
}

fn push_paragraph(doc: &OrgDocument, lo: usize, hi: usize, blocks: &mut Vec<OrgBlock>)
    requires
        lo <= hi <= doc.elements@.len(),
    ensures
        final(blocks).deep_view() == old(blocks).deep_view() + plain_paragraph(
            spans_in(doc.deep_view(), lo as int, hi as int),
        ),
{
    let ghost before = blocks.deep_view();
    let spans: Vec<Span> = spans_of_elements(doc, lo, hi);
    let ghost all = spans.deep_view();
    if !is_effectively_empty(&spans) {
        push_block(blocks, OrgBlock::Paragraph { spans });
    }
    assert(blocks.deep_view() =~= before + plain_paragraph(all));
}

fn walk_child(doc: &OrgDocument, p: usize, hi: usize, blocks: &mut Vec<OrgBlock>)
    requires
        p < hi <= doc.elements@.len(),
    ensures
        final(blocks).deep_view() == old(blocks).deep_view() + child_blocks(
            doc.deep_view(),
            p as int,
            hi as int,
        ),
    decreases hi - p, 0int,
{
    let ghost d = doc.deep_view();
    let ghost before = blocks.deep_view();
    let end: usize = doc.subtree_end(p, hi);
    if doc.node_at(p, "PARAGRAPH") {
        push_paragraph(doc, p + 1, end, blocks);
    } else if doc.node_at(p, "LIST") {
        walk_list(doc, p + 1, end, blocks);
    } else if doc.node_at(p, "QUOTE_BLOCK") {
        let spans: Vec<Span> = match doc.child(p + 1, end, "BLOCK_CONTENT") {
            Some(c) => {
                let c_end: usize = doc.subtree_end(c, end);
                spans_of_elements(doc, c + 1, c_end)
            },
            None => {
                let mut v: Vec<Span> = Vec::new();
                v.push(Span::Text(String::new()));
                assert(v.deep_view() =~= seq![SpanView::Text(Seq::<char>::empty())]);
                v
            },
        };
        push_block(blocks, OrgBlock::Quote { spans });
    } else {
        assert(d.elements[p as int] == doc.elements[p as int].deep_view());
        if doc.node_at(p, "SOURCE_BLOCK") && p < doc.sources.len() {
            assert(d.sources[p as int] == doc.sources[p as int].deep_view());
            match &doc.sources[p] {
                Some((language, value)) => {
                    let content: String = text::without_end_newlines(value.as_str());
                    push_block(
                        blocks,
                        OrgBlock::CodeBlock { language: language.clone(), content },
                    );
                    assert(blocks.deep_view() =~= before + child_blocks(d, p as int, hi as int));
                    return;
                },
                None => {},
            }
        }
        if doc.elements[p].text.is_none() && !silent(doc.elements[p].kind.as_str()) {
            push_paragraph(doc, p + 1, end, blocks);
        }
    }
    assert(blocks.deep_view() =~= before + child_blocks(d, p as int, hi as int));
}

spec fn position(p: Option<usize>) -> Option<int> {
    match p {
        Some(q) => Some(q as int),
        None => None,
    }
}

fn walk_content(
    doc: &OrgDocument,
    lo: usize,
    hi: usize,
    skip: Option<usize>,
    blocks: &mut Vec<OrgBlock>,
)
    requires
        lo <= hi <= doc.elements@.len(),
    ensures
        final(blocks).deep_view() == old(blocks).deep_view() + content_blocks(
            doc.deep_view(),
            lo as int,
            hi as int,
            position(skip),
        ),
    decreases hi - lo, 1int,
{
    let ghost d = doc.deep_view();
    let ghost all = blocks.deep_view() + content_blocks(d, lo as int, hi as int, position(skip));
    let mut q: usize = lo;
    while q < hi
        invariant
            d == doc.deep_view(),
            lo <= q <= hi <= doc.elements@.len(),
            all == blocks.deep_view() + content_blocks(d, q as int, hi as int, position(skip)),
        decreases hi - q,
    {
        let end: usize = doc.subtree_end(q, hi);
        let skipped: bool = match skip {
            Some(p) => p == q,
            None => false,
        };
        if !skipped {
            walk_child(doc, q, hi, blocks);
        }
        assert(all =~= blocks.deep_view() + content_blocks(
            d,
            end as int,
            hi as int,
            position(skip),
        ));
        q = end;
    }
    assert(all =~= blocks.deep_view());
}

fn walk_first_section(doc: &OrgDocument, lo: usize, hi: usize, blocks: &mut Vec<OrgBlock>)
    requires
        lo <= hi <= doc.elements@.len(),
    ensures
        final(blocks).deep_view() == old(blocks).deep_view() + first_section(
            doc.deep_view(),
            lo as int,
            hi as int,
        ),
{
    match doc.child(lo, hi, "SECTION") {
        Some(s) => {
            let end: usize = doc.subtree_end(s, hi);
            walk_content(doc, s + 1, end, None, blocks);
        },
        None => {},
    }
}

fn heading_of(doc: &OrgDocument, p: usize, lo: usize, hi: usize) -> (r: OrgBlock)
    requires
        lo <= hi <= doc.elements@.len(),
    ensures
        r.deep_view() == heading_block(doc.deep_view(), p as int, lo as int, hi as int),
{
    let level: u8 = if p < doc.levels.len() {
        assert(doc.levels.deep_view()[p as int] == doc.levels[p as int].deep_view());
        match doc.levels[p] {
            Some(stars) => if stars <= 255 {
                stars as u8
            } else {
                255u8
            },
            None => 0u8,
        }
    } else {
        0u8
    };
    let spans: Vec<Span> = match doc.child(lo, hi, "HEADLINE_TITLE") {
        Some(t) => {
            let end: usize = doc.subtree_end(t, hi);
            spans_of_elements(doc, t + 1, end)
        },
        None => SpanBuilder::new().finish(),
    };
    OrgBlock::Heading { level, spans }
}

fn walk_headlines(doc: &OrgDocument, lo: usize, hi: usize, blocks: &mut Vec<OrgBlock>)
    requires
        lo <= hi <= doc.elements@.len(),
    ensures
        final(blocks).deep_view() == old(blocks).deep_view() + headline_blocks(
            doc.deep_view(),
            lo as int,
            hi as int,
        ),
    decreases hi - lo,
{
    let ghost d = doc.deep_view();
    let ghost all = blocks.deep_view() + headline_blocks(d, lo as int, hi as int);
    let mut q: usize = lo;
    while q < hi
        invariant
            d == doc.deep_view(),
            lo <= q <= hi <= doc.elements@.len(),
            all == blocks.deep_view() + headline_blocks(d, q as int, hi as int),
        decreases hi - q,
    {
        let end: usize = doc.subtree_end(q, hi);
        let ghost before = blocks.deep_view();
        let ghost rest = headline_blocks(d, end as int, hi as int);
        if doc.node_at(q, "HEADLINE") {
            let heading: OrgBlock = heading_of(doc, q, q + 1, end);
            push_block(blocks, heading);
            walk_first_section(doc, q + 1, end, blocks);
            walk_headlines(doc, q + 1, end, blocks);
            assert(before + (seq![heading.deep_view()] + first_section(d, q + 1, end as int)
                + headline_blocks(d, q + 1, end as int) + rest) =~= blocks.deep_view() + rest);
        }
        assert(all =~= blocks.deep_view() + rest);
        q = end;
    }
    assert(all =~= blocks.deep_view());
}

fn walk_document(doc: &OrgDocument) -> (r: Vec<OrgBlock>)
    ensures
        r.deep_view() == document_blocks(doc.deep_view()),
{
    let mut blocks: Vec<OrgBlock> = Vec::new();
    assert(blocks.deep_view() =~= Seq::<OrgBlockView>::empty());
    let n: usize = doc.elements.len();
    if n > 0 {
        let end: usize = doc.subtree_end(0, n);
        walk_first_section(doc, 1, end, &mut blocks);
        walk_headlines(doc, 1, end, &mut blocks);
    }
    assert(blocks.deep_view() =~= document_blocks(doc.deep_view()));
    blocks
}

// ---------------------------------------------------------------------
// The node
// ---------------------------------------------------------------------

/// The value of the first pair whose key is `key` up to ASCII case, without
/// the white space around it.
pub open spec fn lookup(pairs: Seq<(Seq<char>, Seq<char>)>, key: Seq<char>) -> Option<Seq<char>>
    decreases pairs.len(),
{
    if pairs.len() == 0 {
        None
    } else if text::same_ignoring_case(pairs.first().0, key) {
        Some(text::trim(pairs.first().1))
    } else {
        lookup(pairs.drop_first(), key)
    }
}

/// The ID of a document: from its property drawer, else from its keywords.
pub open spec fn id_of(d: DocumentView) -> Option<Seq<char>> {
    match d.properties {
        Some(pairs) => match lookup(pairs, "ID"@) {
            Some(id) => Some(id),
            None => lookup(d.keywords, "ID"@),
        },
        None => lookup(d.keywords, "ID"@),
    }
}

/// The tags of the `#+filetags:` keywords.
pub open spec fn filetags(keywords: Seq<(Seq<char>, Seq<char>)>) -> Seq<Seq<char>>
    decreases keywords.len(),
{
    if keywords.len() == 0 {
        Seq::<Seq<char>>::empty()
    } else {
        let head = filetags(keywords.drop_last());
        if text::same_ignoring_case(keywords.last().0, "FILETAGS"@) {
            head + text::nonblank_trimmed(text::split_by(keywords.last().1, Separator::Tag))
        } else {
            head
        }
    }
}

/// What a span reads as: of a link its description or else its target.
pub open spec fn span_text(s: SpanView) -> Seq<char> {
    match s {
        SpanView::Text(t) => t,
        SpanView::Marked { text, .. } => text,
        SpanView::LinkRef { id, description } => match description {
            Some(t) => t,
            None => id,
        },
        SpanView::ExternalLink { url, description } => match description {
            Some(t) => t,
            None => url,
        },
    }
}

/// What spans read as, one after another.
pub open spec fn plain_text(spans: Seq<SpanView>) -> Seq<char>
    decreases spans.len(),
{
    if spans.len() == 0 {
        Seq::<char>::empty()
    } else {
        plain_text(spans.drop_last()) + span_text(spans.last())
    }
}

/// The text of the first heading.
pub open spec fn first_heading(blocks: Seq<OrgBlockView>) -> Option<Seq<char>>
    decreases blocks.len(),
{
    if blocks.len() == 0 {
        None
    } else {
        match blocks.first() {
            OrgBlockView::Heading { level: _, spans } => Some(plain_text(spans)),
            _ => first_heading(blocks.drop_first()),
        }
    }
}

/// The title of a node: the document's, or the first heading, or the name of
/// the file.
pub open spec fn title_of(p: PathView, d: DocumentView, blocks: Seq<OrgBlockView>) -> Seq<char> {
    let given = match d.title {
        Some(t) => text::trim(t),
        None => Seq::<char>::empty(),
    };
    if given.len() > 0 {
        given
    } else {
        match first_heading(blocks) {
            Some(t) => t,
            None => match path::name_of(p) {
                Some(n) => path::stem(n),
                None => "untitled"@,
            },
        }
    }
}

/// The IDs that spans link to, in order.
pub open spec fn span_links(spans: Seq<SpanView>) -> Seq<Seq<char>>
    decreases spans.len(),
{
    if spans.len() == 0 {
        Seq::<Seq<char>>::empty()
    } else {
        match spans.last() {
            SpanView::LinkRef { id, description: _ } => span_links(spans.drop_last()).push(id),
            _ => span_links(spans.drop_last()),
        }
    }
}

/// The IDs that blocks link to, in order.
pub open spec fn block_links(blocks: Seq<OrgBlockView>) -> Seq<Seq<char>>
    decreases blocks.len(),
{
    if blocks.len() == 0 {
        Seq::<Seq<char>>::empty()
    } else {
        block_links(blocks.drop_last()) + span_links(spans_of_block(blocks.last()))
    }
}

/// The texts without the repetitions, each where it first stands.
pub open spec fn first_seen(ids: Seq<Seq<char>>) -> Seq<Seq<char>>
    decreases ids.len(),
{
    if ids.len() == 0 {
        Seq::<Seq<char>>::empty()
    } else {
        let head = first_seen(ids.drop_last());
        if head.contains(ids.last()) {
            head
        } else {
            head.push(ids.last())
        }
    }
}

/// The node of a document; none where it has no ID.
pub open spec fn node_of(p: PathView, d: DocumentView) -> Option<NodeView> {
    match id_of(d) {
        None => None,
        Some(id) => {
            let blocks = document_blocks(d);
            Some(
                NodeView {
                    id,
                    file_path: p,
                    title: title_of(p, d, blocks),
                    links: first_seen(block_links(blocks)),
                    tags: filetags(d.keywords),
                    blocks,
                },
            )
        },
    }
}

fn find_value(pairs: &Vec<(String, String)>, key: &str) -> (r: Option<String>)
    ensures
        r.deep_view() == lookup(pairs.deep_view(), key@),
{
    let ghost all = pairs.deep_view();
    let mut i: usize = 0;
    assert(all.skip(0) =~= all);
    while i < pairs.len()
        invariant
            all == pairs.deep_view(),
            i <= pairs@.len(),
            lookup(all, key@) == lookup(all.skip(i as int), key@),
        decreases pairs.len() - i,
    {
        assert(all.skip(i as int).first() == pairs[i as int].deep_view());
        if text::eq_ignoring_case(pairs[i].0.as_str(), key) {
            return Some(text::trimmed(pairs[i].1.as_str()));
        }
        assert(all.skip(i as int).drop_first() =~= all.skip(i + 1));
        i = i + 1;
    }
    None
}

fn extract_id(doc: &OrgDocument) -> (r: Option<String>)
    ensures
        r.deep_view() == id_of(doc.deep_view()),
{
    match &doc.properties {
        Some(pairs) => match find_value(pairs, "ID") {
            Some(id) => Some(id),
            None => find_value(&doc.keywords, "ID"),
        },
        None => find_value(&doc.keywords, "ID"),
    }
}

fn extract_filetags(keywords: &Vec<(String, String)>) -> (r: Vec<String>)
    ensures
        r.deep_view() == filetags(keywords.deep_view()),
{
    let ghost all = keywords.deep_view();
    let mut tags: Vec<String> = Vec::new();
    let mut i: usize = 0;
    while i < keywords.len()
        invariant
            all == keywords.deep_view(),
            i <= keywords@.len(),
            tags.deep_view() == filetags(all.take(i as int)),
        decreases keywords.len() - i,
    {
        assert(all.take(i + 1).drop_last() =~= all.take(i as int));
        assert(all.take(i + 1).last() == keywords[i as int].deep_view());
        if text::eq_ignoring_case(keywords[i].0.as_str(), "FILETAGS") {
            let pieces: Vec<String> = text::split_pieces(keywords[i].1.as_str(), Separator::Tag);
            let mut found: Vec<String> = text::trim_pieces(&pieces);
            let ghost before = tags.deep_view();
            let ghost new = found.deep_view();
            tags.append(&mut found);
            assert(tags.deep_view() =~= before + new);
        }
        i = i + 1;
    }
    assert(all.take(i as int) =~= all);
    tags
}

fn spans_to_plain_text(spans: &Vec<Span>) -> (r: String)
    ensures
        r@ == plain_text(spans.deep_view()),
{
    let ghost all = spans.deep_view();
    let mut out: String = String::new();
    let mut i: usize = 0;
    while i < spans.len()
        invariant
            all == spans.deep_view(),
            i <= spans@.len(),
            out@ == plain_text(all.take(i as int)),
        decreases spans.len() - i,
    {
        assert(all.take(i + 1).drop_last() =~= all.take(i as int));
        assert(all.take(i + 1).last() == spans[i as int].deep_view());
        match &spans[i] {
            Span::Text(t) => out.append(t.as_str()),
            Span::Marked { text: t, .. } => out.append(t.as_str()),
            Span::LinkRef { id, description } => match description {
                Some(t) => out.append(t.as_str()),
                None => out.append(id.as_str()),
            },
            Span::ExternalLink { url, description } => match description {
                Some(t) => out.append(t.as_str()),
                None => out.append(url.as_str()),
            },
        }
        i = i + 1;
    }
    assert(all.take(i as int) =~= all);
    out
}

fn find_heading(blocks: &Vec<OrgBlock>) -> (r: Option<String>)
    ensures
        r.deep_view() == first_heading(blocks.deep_view()),
{
    let ghost all = blocks.deep_view();
    let mut i: usize = 0;
    assert(all.skip(0) =~= all);
    while i < blocks.len()
        invariant
            all == blocks.deep_view(),
            i <= blocks@.len(),
            first_heading(all) == first_heading(all.skip(i as int)),
        decreases blocks.len() - i,
    {
        assert(all.skip(i as int).first() == blocks[i as int].deep_view());
        match &blocks[i] {
            OrgBlock::Heading { level: _, spans } => {
                return Some(spans_to_plain_text(spans));
            },
            _ => {},
        }
        assert(all.skip(i as int).drop_first() =~= all.skip(i + 1));
        i = i + 1;
    }
    None
}

fn choose_title(file_path: &VaultPath, doc: &OrgDocument, blocks: &Vec<OrgBlock>) -> (r: String)
    ensures
        r@ == title_of(file_path.deep_view(), doc.deep_view(), blocks.deep_view()),
{
    let given: String = match &doc.title {
        Some(t) => text::trimmed(t.as_str()),
        None => String::new(),
    };
    if given.as_str().unicode_len() > 0 {
        return given;
    }
    match find_heading(blocks) {
        Some(t) => t,
        None => match file_path.file_stem() {
            Some(s) => s,
            None => "untitled".to_owned(),
        },
    }
}

/// Whether a list of strings holds a text.
pub fn holds_text(v: &Vec<String>, s: &str) -> (r: bool)
    ensures
        r == v.deep_view().contains(s@),
{
    let mut i: usize = 0;
    while i < v.len()
        invariant
            i <= v@.len(),
            forall|j: int| 0 <= j < i ==> v.deep_view()[j] != s@,
        decreases v.len() - i,
    {
        if text::same_text(v[i].as_str(), s) {
            assert(v.deep_view()[i as int] == s@);
            return true;
        }
        i = i + 1;
    }
    false
}

fn add_span_links(spans: &Vec<Span>, ids: &mut Vec<String>, Ghost(before): Ghost<Seq<Seq<char>>>)
    requires
        old(ids).deep_view() == first_seen(before),
    ensures
        final(ids).deep_view() == first_seen(before + span_links(spans.deep_view())),
{
    let ghost all = spans.deep_view();
    let mut i: usize = 0;
    assert(before + span_links(all.take(0)) =~= before);
    while i < spans.len()
        invariant
            all == spans.deep_view(),
            i <= spans@.len(),
            ids.deep_view() == first_seen(before + span_links(all.take(i as int))),
        decreases spans.len() - i,
    {
        let ghost here = before + span_links(all.take(i as int));
        assert(all.take(i + 1).drop_last() =~= all.take(i as int));
        assert(all.take(i + 1).last() == spans[i as int].deep_view());
        match &spans[i] {
            Span::LinkRef { id, description: _ } => {
                assert(before + span_links(all.take(i + 1)) =~= here.push(id@));
                assert(here.push(id@).drop_last() =~= here);
                if !holds_text(ids, id.as_str()) {
                    let ghost old_ids = ids.deep_view();
                    ids.push(id.clone());
                    assert(ids.deep_view() =~= old_ids.push(id@));
                }
            },
            _ => {},
        }
        i = i + 1;
    }
    assert(all.take(i as int) =~= all);
}

fn collect_link_ids(blocks: &Vec<OrgBlock>) -> (r: Vec<String>)
    ensures
        r.deep_view() == first_seen(block_links(blocks.deep_view())),
{
    let ghost all = blocks.deep_view();
    let mut ids: Vec<String> = Vec::new();
    let mut i: usize = 0;
    assert(ids.deep_view() =~= Seq::<Seq<char>>::empty());
    while i < blocks.len()
        invariant
            all == blocks.deep_view(),
            i <= blocks@.len(),
            ids.deep_view() == first_seen(block_links(all.take(i as int))),
        decreases blocks.len() - i,
    {
        assert(all.take(i + 1).drop_last() =~= all.take(i as int));
        assert(all.take(i + 1).last() == blocks[i as int].deep_view());
        let ghost before = block_links(all.take(i as int));
        match &blocks[i] {
            OrgBlock::Heading { level: _, spans } => add_span_links(
                spans,
                &mut ids,
                Ghost(before),
            ),
            OrgBlock::Paragraph { spans } => add_span_links(spans, &mut ids, Ghost(before)),
            OrgBlock::BulletItem { spans } => add_span_links(spans, &mut ids, Ghost(before)),
            OrgBlock::NumberedItem { spans } => add_span_links(spans, &mut ids, Ghost(before)),
            OrgBlock::Quote { spans } => add_span_links(spans, &mut ids, Ghost(before)),
            OrgBlock::CodeBlock { .. } => {
                assert(before + span_links(Seq::<SpanView>::empty()) =~= before);
            },
        }
        i = i + 1;
    }
    assert(all.take(i as int) =~= all);
    ids
}

/// The node of a parsed document.
pub fn node_from(file_path: &VaultPath, doc: &OrgDocument) -> (r: Result<Node, ParseError>)
    ensures
        match r {
            Ok(node) => node_of(file_path.deep_view(), doc.deep_view()) == Some(node.deep_view()),
            Err(ParseError::MissingId { path }) => node_of(
                file_path.deep_view(),
                doc.deep_view(),
            ) is None && path.deep_view() == file_path.deep_view(),
        },
{
    match extract_id(doc) {
        None => Err(ParseError::MissingId { path: file_path.clone() }),
        Some(id) => {
            let blocks: Vec<OrgBlock> = walk_document(doc);
            let title: String = choose_title(file_path, doc, &blocks);
            let links: Vec<String> = collect_link_ids(&blocks);
            let tags: Vec<String> = extract_filetags(&doc.keywords);
            Ok(Node { id, file_path: file_path.clone(), title, links, tags, blocks })
        },
    }
}

/// Parses the text of one node file. `file_path` names the file in the error
/// and in the node. The text has at most `u32::MAX` bytes: the parser counts
/// bytes in 32 bits.
pub fn parse_node(file_path: &VaultPath, s: &str) -> (r: Result<Node, ParseError>)
    requires
        s.spec_bytes().len() <= u32::MAX,
    ensures
        match r {
            Ok(node) => node_of(file_path.deep_view(), org::document_of(s@)) == Some(
                node.deep_view(),
            ),
            Err(ParseError::MissingId { path }) => node_of(
                file_path.deep_view(),
                org::document_of(s@),
            ) is None && path.deep_view() == file_path.deep_view(),
        },
{
    let doc: OrgDocument = org::read_document(s);
    node_from(file_path, &doc)
}

impl Node {
    /// Whether the node carries `tag`, up to ASCII case.
    pub fn has_tag(&self, tag: &str) -> (r: bool)
        ensures
            r == carries_tag(self.deep_view(), tag@),
    {
        let mut i: usize = 0;
        while i < self.tags.len()
            invariant
                i <= self.tags@.len(),
                forall|j: int|
                    0 <= j < i ==> !text::same_ignoring_case(
                        #[trigger] self.deep_view().tags[j],
                        tag@,
                    ),
            decreases self.tags.len() - i,
        {
            if text::eq_ignoring_case(self.tags[i].as_str(), tag) {
                assert(text::same_ignoring_case(self.deep_view().tags[i as int], tag@));
                return true;
            }
            i = i + 1;
        }
        false
    }
}

/// Whether a node carries a tag, up to ASCII case.
pub open spec fn carries_tag(n: NodeView, tag: Seq<char>) -> bool {
    exists|i: int|
        0 <= i < n.tags.len() && text::same_ignoring_case(#[trigger] n.tags[i], tag)
}

impl OrgBlock {
    /// The inline content of the block; a code block has none.
    pub fn spans(&self) -> (r: &[Span])
        ensures
            r@.map_values(|s: Span| s.deep_view()) == spans_of_block(self.deep_view()),
    {
        match self {
            OrgBlock::Heading { level: _, spans } => spans.as_slice(),
            OrgBlock::Paragraph { spans } => spans.as_slice(),
            OrgBlock::BulletItem { spans } => spans.as_slice(),
            OrgBlock::NumberedItem { spans } => spans.as_slice(),
            OrgBlock::Quote { spans } => spans.as_slice(),
            OrgBlock::CodeBlock { .. } => &[],
        }
    }
}

// ---------------------------------------------------------------------
// Laws
// ---------------------------------------------------------------------

/// The first position of a text, or the number of texts.
pub open spec fn first_position(ids: Seq<Seq<char>>, id: Seq<char>) -> int
    decreases ids.len(),
{
    if ids.len() == 0 || ids.first() == id {
        0
    } else {
        1 + first_position(ids.drop_first(), id)
    }
}

proof fn lemma_first_position(ids: Seq<Seq<char>>, id: Seq<char>, k: int)
    requires
        0 <= k < ids.len(),
        ids[k] == id,
        forall|j: int| 0 <= j < k ==> #[trigger] ids[j] != id,
    ensures
        first_position(ids, id) == k,
    decreases ids.len(),
{
    if k > 0 {
        let t = ids.drop_first();
        assert(ids.first() == ids[0]);
        assert(t[k - 1] == id);
        assert forall|j: int| 0 <= j < k - 1 implies #[trigger] t[j] != id by {
            assert(t[j] == ids[j + 1]);
        }
        lemma_first_position(t, id, k - 1);
    }
}

proof fn lemma_first_position_push(ids: Seq<Seq<char>>, x: Seq<char>, id: Seq<char>)
    requires
        ids.contains(id),
    ensures
        first_position(ids.push(x), id) == first_position(ids, id),
        0 <= first_position(ids, id) < ids.len(),
    decreases ids.len(),
{
    assert(ids.push(x).first() == ids.first());
    if ids.first() != id {
        let i = choose|i: int| 0 <= i < ids.len() && ids[i] == id;
        assert(ids.drop_first()[i - 1] == id);
        assert(ids.push(x).drop_first() =~= ids.drop_first().push(x));
        lemma_first_position_push(ids.drop_first(), x, id);
    }
}

/// Leaving out repetitions keeps every text once, in the order in which the
/// texts first occur.
pub proof fn law_first_seen(ids: Seq<Seq<char>>)
    ensures
        first_seen(ids).no_duplicates(),
        forall|id: Seq<char>| #[trigger] first_seen(ids).contains(id) <==> ids.contains(id),
        forall|i: int, j: int|
            #![trigger first_seen(ids)[i], first_seen(ids)[j]]
            0 <= i < j < first_seen(ids).len() ==> first_position(ids, first_seen(ids)[i])
                < first_position(ids, first_seen(ids)[j]),
    decreases ids.len(),
{
    if ids.len() > 0 {
        let h = ids.drop_last();
        let x = ids.last();
        let f = first_seen(h);
        let r = first_seen(ids);
        law_first_seen(h);
        assert(ids =~= h.push(x));
        assert forall|id: Seq<char>| #[trigger] r.contains(id) <==> ids.contains(id) by {
            assert(f.contains(id) <==> h.contains(id));
            if h.contains(id) {
                let k = choose|k: int| 0 <= k < h.len() && h[k] == id;
                assert(ids[k] == id);
                let m = choose|m: int| 0 <= m < f.len() && f[m] == id;
                assert(r[m] == id);
            }
            if id == x {
                assert(ids[ids.len() - 1] == id);
                if !f.contains(x) {
                    assert(r[r.len() - 1] == id);
                }
            }
            if ids.contains(id) && !h.contains(id) {
                let k = choose|k: int| 0 <= k < ids.len() && ids[k] == id;
                if k < h.len() {
                    assert(h[k] == id);
                }
            }
            if r.contains(id) && !f.contains(id) {
                let m = choose|m: int| 0 <= m < r.len() && r[m] == id;
                if m < f.len() {
                    assert(f[m] == id);
                }
            }
        }
        assert forall|m: int| 0 <= m < f.len() implies #[trigger] h.contains(f[m]) by {
            assert(f.contains(f[m]));
        }
        assert forall|i: int, j: int|
            #![trigger r[i], r[j]]
            0 <= i < j < r.len() implies first_position(ids, r[i]) < first_position(
            ids,
            r[j],
        ) by {
            assert(f[i] == r[i]);
            assert(h.contains(f[i]));
            lemma_first_position_push(h, x, r[i]);
            if j < f.len() {
                assert(f[j] == r[j]);
                assert(h.contains(f[j]));
                lemma_first_position_push(h, x, r[j]);
            } else {
                assert(!h.contains(x));
                assert forall|k: int| 0 <= k < h.len() implies #[trigger] ids[k] != x by {
                    assert(h[k] == ids[k]);
                    assert(h.contains(h[k]));
                }
                lemma_first_position(ids, x, h.len() as int);
            }
        }
    }
}

/// Whether some span of some block links to the node.
pub open spec fn blocks_link_to(blocks: Seq<OrgBlockView>, id: Seq<char>) -> bool {
    exists|b: int, k: int| #[trigger] span_links_at(blocks, b, k, id)
}

/// Whether the `k`th span of the `b`th block links to the node.
pub open spec fn span_links_at(blocks: Seq<OrgBlockView>, b: int, k: int, id: Seq<char>) -> bool {
    &&& 0 <= b < blocks.len()
    &&& 0 <= k < spans_of_block(blocks[b]).len()
    &&& spans_of_block(blocks[b])[k] matches SpanView::LinkRef { id: target, .. }
    &&& target == id
}

proof fn lemma_span_links(spans: Seq<SpanView>, id: Seq<char>)
    ensures
        span_links(spans).contains(id) <==> exists|k: int|
            0 <= k < spans.len() && (#[trigger] spans[k] matches SpanView::LinkRef { id: t, .. }
                && t == id),
    decreases spans.len(),
{
    if spans.len() > 0 {
        let h = spans.drop_last();
        let r = span_links(spans);
        let f = span_links(h);
        lemma_span_links(h, id);
        if f.contains(id) {
            let k = choose|k: int|
                0 <= k < h.len() && (#[trigger] h[k] matches SpanView::LinkRef { id: t, .. } && t
                    == id);
            assert(spans[k] == h[k]);
            let m = choose|m: int| 0 <= m < f.len() && f[m] == id;
            assert(r[m] == id);
        }
        if exists|k: int|
            0 <= k < spans.len() && (#[trigger] spans[k] matches SpanView::LinkRef { id: t, .. }
                && t == id) {
            let k = choose|k: int|
                0 <= k < spans.len() && (#[trigger] spans[k] matches SpanView::LinkRef {
                    id: t,
                    ..
                } && t == id);
            if k < h.len() {
                assert(h[k] == spans[k]);
            } else {
                assert(r[r.len() - 1] == id);
            }
        }
        if r.contains(id) && !f.contains(id) {
            let m = choose|m: int| 0 <= m < r.len() && r[m] == id;
            if m < f.len() {
                assert(f[m] == id);
            }
            assert(spans[spans.len() - 1] == spans.last());
        }
    }
}

/// The IDs that blocks link to are those that one of their spans links to.
pub proof fn lemma_block_links(blocks: Seq<OrgBlockView>, id: Seq<char>)
    ensures
        block_links(blocks).contains(id) <==> blocks_link_to(blocks, id),
    decreases blocks.len(),
{
    if blocks.len() == 0 {
        assert(!blocks_link_to(blocks, id));
    } else {
        let h = blocks.drop_last();
        let last = spans_of_block(blocks.last());
        let (f, g) = (block_links(h), span_links(last));
        let r = block_links(blocks);
        lemma_block_links(h, id);
        lemma_span_links(last, id);
        if f.contains(id) {
            let (b, k) = choose|b: int, k: int| #[trigger] span_links_at(h, b, k, id);
            assert(span_links_at(blocks, b, k, id));
            let m = choose|m: int| 0 <= m < f.len() && f[m] == id;
            assert(r[m] == id);
        }
        if g.contains(id) {
            let k = choose|k: int|
                0 <= k < last.len() && (#[trigger] last[k] matches SpanView::LinkRef { id: t, .. }
                    && t == id);
            assert(span_links_at(blocks, blocks.len() - 1, k, id));
            let m = choose|m: int| 0 <= m < g.len() && g[m] == id;
            assert(r[f.len() + m] == id);
        }
        if blocks_link_to(blocks, id) {
            let (b, k) = choose|b: int, k: int| #[trigger] span_links_at(blocks, b, k, id);
            if b < h.len() {
                assert(span_links_at(h, b, k, id));
            } else {
                assert(last[k] == spans_of_block(blocks[b])[k]);
            }
        }
        if r.contains(id) {
            let m = choose|m: int| 0 <= m < r.len() && r[m] == id;
            if m < f.len() {
                assert(f[m] == id);
            } else {
                assert(g[m - f.len()] == id);
            }
        }
    }
}

/// A node lists exactly the nodes that its blocks link to, each once and in
/// the order of their first appearance.
pub proof fn law_node_links(p: PathView, d: DocumentView)
    requires
        node_of(p, d) is Some,
    ensures
        ({
            let n = node_of(p, d)->0;
            let ids = block_links(n.blocks);
            &&& n.links.no_duplicates()
            &&& forall|id: Seq<char>| #[trigger]
                n.links.contains(id) <==> blocks_link_to(n.blocks, id)
            &&& forall|i: int, j: int|
                #![trigger n.links[i], n.links[j]]
                0 <= i < j < n.links.len() ==> first_position(ids, n.links[i]) < first_position(
                    ids,
                    n.links[j],
                )
        }),
{
    let n = node_of(p, d)->0;
    let ids = block_links(n.blocks);
    law_first_seen(ids);
    assert forall|id: Seq<char>| #[trigger] n.links.contains(id) <==> blocks_link_to(
        n.blocks,
        id,
    ) by {
        lemma_block_links(n.blocks, id);
        assert(first_seen(ids).contains(id) <==> ids.contains(id));
    }
}

/// A part of the content of a section.
pub enum PartView {
    /// The subtree at `p`, which ends at `hi` at the latest.
    Child { p: int, hi: int },
    /// The paragraph that is a list item itself, of the item whose content is the
    /// subtrees in `lo..hi`.
    Item { lo: int, hi: int, ordered: bool },
}

/// The blocks that a part gives.
pub open spec fn part_blocks(d: DocumentView, part: PartView) -> Seq<OrgBlockView> {
    match part {
        PartView::Child { p, hi } => child_blocks(d, p, hi),
        PartView::Item { lo, hi, ordered } => item_paragraph(d, lo, hi, ordered),
    }
}

/// Whether the content in `lo..hi` has a part: one of the subtrees there but for
/// that at `skip`, or a part of a list among them.
pub open spec fn in_content(
    d: DocumentView,
    lo: int,
    hi: int,
    skip: Option<int>,
    part: PartView,
) -> bool
    decreases hi - lo, 1int,
{
    if lo >= hi {
        false
    } else {
        proof {
            org::lemma_end_of(d, lo, hi);
        }
        let end = org::end_of(d, lo, hi);
        ||| skip != Some(lo) && part == (PartView::Child { p: lo, hi })
        ||| skip != Some(lo) && org::is_node(d, lo, "LIST"@) && in_list(d, lo + 1, end, part)
        ||| in_content(d, end, hi, skip, part)
    }
}

/// Whether the list items among the subtrees in `lo..hi` have a part: the
/// paragraph that is an item itself, or a part of the rest of its content.
pub open spec fn in_list(d: DocumentView, lo: int, hi: int, part: PartView) -> bool
    decreases hi - lo, 0int,
{
    if lo >= hi {
        false
    } else {
        proof {
            org::lemma_end_of(d, lo, hi);
            org::lemma_first_child(d, lo + 1, org::end_of(d, lo, hi), "LIST_ITEM_CONTENT"@);
        }
        let end = org::end_of(d, lo, hi);
        ||| org::is_node(d, lo, "LIST_ITEM"@) && match org::first_child(
            d,
            lo + 1,
            end,
            "LIST_ITEM_CONTENT"@,
        ) {
            Some(c) => {
                proof {
                    org::lemma_end_of(d, c, end);
                }
                let content_end = org::end_of(d, c, end);
                let first = org::first_child(d, c + 1, content_end, "PARAGRAPH"@);
                ||| part == (PartView::Item {
                    lo: c + 1,
                    hi: content_end,
                    ordered: is_ordered(d, lo + 1, end),
                })
                ||| in_content(d, c + 1, content_end, first, part)
            },
            None => false,
        }
        ||| in_list(d, end, hi, part)
    }
}

/// Whether the one holds all blocks of the other.
pub open spec fn holds_all(blocks: Seq<OrgBlockView>, some: Seq<OrgBlockView>) -> bool {
    forall|k: int| 0 <= k < some.len() ==> blocks.contains(#[trigger] some[k])
}

proof fn lemma_holds_concat(
    x: Seq<OrgBlockView>,
    y: Seq<OrgBlockView>,
    some: Seq<OrgBlockView>,
)
    requires
        holds_all(x, some) || holds_all(y, some),
    ensures
        holds_all(x + y, some),
{
    assert forall|k: int| 0 <= k < some.len() implies (x + y).contains(#[trigger] some[k]) by {
        lemma_in_concat(x, y, some[k]);
    }
}

proof fn lemma_content_holds(
    d: DocumentView,
    lo: int,
    hi: int,
    skip: Option<int>,
    part: PartView,
)
    requires
        in_content(d, lo, hi, skip, part),
    ensures
        holds_all(content_blocks(d, lo, hi, skip), part_blocks(d, part)),
    decreases hi - lo, 1int,
{
    org::lemma_end_of(d, lo, hi);
    let end = org::end_of(d, lo, hi);
    let own = child_blocks(d, lo, hi);
    let rest = content_blocks(d, end, hi, skip);
    if in_content(d, end, hi, skip, part) {
        lemma_content_holds(d, end, hi, skip, part);
    } else if part != (PartView::Child { p: lo, hi }) {
        lemma_list_holds(d, lo + 1, end, part);
        lemma_kind_differs(d, lo);
        assert(own == list_blocks(d, lo + 1, end));
    }
    lemma_holds_concat(own, rest, part_blocks(d, part));
}

proof fn lemma_list_holds(d: DocumentView, lo: int, hi: int, part: PartView)
    requires
        in_list(d, lo, hi, part),
    ensures
        holds_all(list_blocks(d, lo, hi), part_blocks(d, part)),
    decreases hi - lo, 0int,
{
    org::lemma_end_of(d, lo, hi);
    let end = org::end_of(d, lo, hi);
    let rest = list_blocks(d, end, hi);
    if in_list(d, end, hi, part) {
        lemma_list_holds(d, end, hi, part);
    }
    if org::is_node(d, lo, "LIST_ITEM"@) {
        org::lemma_first_child(d, lo + 1, end, "LIST_ITEM_CONTENT"@);
        match org::first_child(d, lo + 1, end, "LIST_ITEM_CONTENT"@) {
            Some(c) => {
                org::lemma_end_of(d, c, end);
                let content_end = org::end_of(d, c, end);
                let first = org::first_child(d, c + 1, content_end, "PARAGRAPH"@);
                let own = item_paragraph(d, c + 1, content_end, is_ordered(d, lo + 1, end));
                let more = content_blocks(d, c + 1, content_end, first);
                if in_content(d, c + 1, content_end, first, part) {
                    lemma_content_holds(d, c + 1, content_end, first, part);
                    lemma_holds_concat(own, more, part_blocks(d, part));
                } else if !in_list(d, end, hi, part) {
                    lemma_holds_concat(own, more, part_blocks(d, part));
                }
                lemma_holds_concat(own + more, rest, part_blocks(d, part));
            },
            None => {},
        }
    }
}

proof fn lemma_kind_differs(d: DocumentView, p: int)
    requires
        org::is_node(d, p, "LIST"@),
    ensures
        !org::is_node(d, p, "PARAGRAPH"@),
{
    reveal_strlit("LIST");
    reveal_strlit("PARAGRAPH");
    assert("LIST"@.len() != "PARAGRAPH"@.len());
}

/// Nothing of a section is lost: its blocks hold all that each of its parts
/// gives, those of list items at any depth among them.
pub proof fn law_content_is_kept(d: DocumentView, lo: int, hi: int, part: PartView)
    requires
        in_content(d, lo, hi, None, part),
    ensures
        holds_all(section_blocks(d, lo, hi), part_blocks(d, part)),
{
    lemma_content_holds(d, lo, hi, None, part);
}

proof fn lemma_in_content_range(
    d: DocumentView,
    lo: int,
    hi: int,
    skip: Option<int>,
    p: int,
    b: int,
)
    requires
        in_content(d, lo, hi, skip, PartView::Child { p, hi: b }),
    ensures
        lo <= p < b <= hi,
    decreases hi - lo, 1int,
{
    org::lemma_end_of(d, lo, hi);
    let end = org::end_of(d, lo, hi);
    if in_content(d, end, hi, skip, PartView::Child { p, hi: b }) {
        lemma_in_content_range(d, end, hi, skip, p, b);
    } else if !(p == lo && b == hi) {
        lemma_in_list_range(d, lo + 1, end, p, b);
    }
}

proof fn lemma_in_list_range(d: DocumentView, lo: int, hi: int, p: int, b: int)
    requires
        in_list(d, lo, hi, PartView::Child { p, hi: b }),
    ensures
        lo <= p < b <= hi,
    decreases hi - lo, 0int,
{
    org::lemma_end_of(d, lo, hi);
    let end = org::end_of(d, lo, hi);
    org::lemma_first_child(d, lo + 1, end, "LIST_ITEM_CONTENT"@);
    if in_list(d, end, hi, PartView::Child { p, hi: b }) {
        lemma_in_list_range(d, end, hi, p, b);
    } else {
        match org::first_child(d, lo + 1, end, "LIST_ITEM_CONTENT"@) {
            Some(c) => {
                org::lemma_end_of(d, c, end);
                let content_end = org::end_of(d, c, end);
                let first = org::first_child(d, c + 1, content_end, "PARAGRAPH"@);
                lemma_in_content_range(d, c + 1, content_end, first, p, b);
            },
            None => {},
        }
    }
}

/// A construct of a section, or of the content of a list item in it at any
/// depth, that has no block of its own becomes a plain paragraph of all its
/// text, unless it is a drawer, a keyword or a comment, or nothing but white
/// space.
pub proof fn law_unrecognized_becomes_paragraph(d: DocumentView, lo: int, hi: int, p: int, b: int)
    requires
        in_content(d, lo, hi, None, PartView::Child { p, hi: b }),
        d.elements[p].2 is None,
        !has_own_block(d, p),
        !is_silent(d.elements[p].1),
        !all_blank(spans_in(d, p + 1, org::end_of(d, p, b))),
    ensures
        section_blocks(d, lo, hi).contains(
            OrgBlockView::Paragraph { spans: spans_in(d, p + 1, org::end_of(d, p, b)) },
        ),
{
    lemma_in_content_range(d, lo, hi, None, p, b);
    law_content_is_kept(d, lo, hi, PartView::Child { p, hi: b });
    let own = child_blocks(d, p, b);
    assert(own =~= seq![
        OrgBlockView::Paragraph { spans: spans_in(d, p + 1, org::end_of(d, p, b)) },
    ]);
    assert(section_blocks(d, lo, hi).contains(own[0]));
}

/// Whether the first section among the subtrees in `lo..hi` consists of the
/// subtrees in `a..b`.
pub open spec fn has_section(d: DocumentView, lo: int, hi: int, a: int, b: int) -> bool {
    org::first_child(d, lo, hi, "SECTION"@) matches Some(s) && a == s + 1 && b == org::end_of(
        d,
        s,
        hi,
    )
}

/// Whether a headline among the subtrees in `lo..hi`, or one below it, has a
/// section that consists of the subtrees in `a..b`.
pub open spec fn headlines_have_section(
    d: DocumentView,
    lo: int,
    hi: int,
    a: int,
    b: int,
) -> bool
    decreases hi - lo,
{
    if lo >= hi {
        false
    } else {
        proof {
            org::lemma_end_of(d, lo, hi);
        }
        let end = org::end_of(d, lo, hi);
        ||| org::is_node(d, lo, "HEADLINE"@) && has_section(d, lo + 1, end, a, b)
        ||| org::is_node(d, lo, "HEADLINE"@) && headlines_have_section(d, lo + 1, end, a, b)
        ||| headlines_have_section(d, end, hi, a, b)
    }
}

/// Whether the document, or one of its headlines, has a section that consists
/// of the subtrees in `a..b`.
pub open spec fn document_has_section(d: DocumentView, a: int, b: int) -> bool {
    let n = d.elements.len() as int;
    n > 0 && {
        let end = org::end_of(d, 0, n);
        has_section(d, 1, end, a, b) || headlines_have_section(d, 1, end, a, b)
    }
}

proof fn lemma_in_concat(x: Seq<OrgBlockView>, y: Seq<OrgBlockView>, block: OrgBlockView)
    requires
        x.contains(block) || y.contains(block),
    ensures
        (x + y).contains(block),
{
    if x.contains(block) {
        let k = choose|k: int| 0 <= k < x.len() && x[k] == block;
        assert((x + y)[k] == block);
    } else {
        let k = choose|k: int| 0 <= k < y.len() && y[k] == block;
        assert((x + y)[x.len() + k] == block);
    }
}

proof fn lemma_headlines_keep(
    d: DocumentView,
    lo: int,
    hi: int,
    a: int,
    b: int,
    block: OrgBlockView,
)
    requires
        headlines_have_section(d, lo, hi, a, b),
        section_blocks(d, a, b).contains(block),
    ensures
        headline_blocks(d, lo, hi).contains(block),
    decreases hi - lo,
{
    org::lemma_end_of(d, lo, hi);
    let end = org::end_of(d, lo, hi);
    let rest = headline_blocks(d, end, hi);
    if headlines_have_section(d, end, hi, a, b) {
        lemma_headlines_keep(d, end, hi, a, b, block);
    }
    if org::is_node(d, lo, "HEADLINE"@) {
        let heading = seq![heading_block(d, lo, lo + 1, end)];
        let section = first_section(d, lo + 1, end);
        let below = headline_blocks(d, lo + 1, end);
        if headlines_have_section(d, lo + 1, end, a, b) {
            lemma_headlines_keep(d, lo + 1, end, a, b, block);
        }
        if section.contains(block) {
            lemma_in_concat(heading, section, block);
        }
        if section.contains(block) || below.contains(block) {
            lemma_in_concat(heading + section, below, block);
        }
        lemma_in_concat(heading + section + below, rest, block);
    }
}

/// A node holds the blocks of every section of its document, of those below
/// headlines at any depth too.
pub proof fn law_sections_are_kept(
    p: PathView,
    d: DocumentView,
    a: int,
    b: int,
    block: OrgBlockView,
)
    requires
        node_of(p, d) is Some,
        document_has_section(d, a, b),
        section_blocks(d, a, b).contains(block),
    ensures
        (node_of(p, d)->0).blocks.contains(block),
{
    let end = org::end_of(d, 0, d.elements.len() as int);
    if headlines_have_section(d, 1, end, a, b) {
        lemma_headlines_keep(d, 1, end, a, b, block);
    }
    lemma_in_concat(first_section(d, 1, end), headline_blocks(d, 1, end), block);
}

/// Whether a text holds no line feed.
pub open spec fn no_newline(s: Seq<char>) -> bool {
    forall|i: int| 0 <= i < s.len() ==> #[trigger] s[i] != '\n'
}

/// Whether an ID holds no `::`, which would start a search target.
pub open spec fn no_search_target(id: Seq<char>) -> bool {
    forall|i: int| !#[trigger] text::occurs_at(id, "::"@, i)
}

/// Whether a span's text holds no line feed, and the ID that it links to no
/// search target.
pub open spec fn tidy_span(s: SpanView) -> bool {
    &&& own_text(s) matches Some(t) ==> no_newline(t)
    &&& s matches SpanView::LinkRef { id, .. } ==> no_search_target(id)
}

/// Whether the spans are tidy.
pub open spec fn tidy_spans(spans: Seq<SpanView>) -> bool {
    forall|i: int| 0 <= i < spans.len() ==> tidy_span(#[trigger] spans[i])
}

/// Whether there is a span, and all are tidy.
pub open spec fn tidy(spans: Seq<SpanView>) -> bool {
    spans.len() > 0 && tidy_spans(spans)
}

/// Whether the inline content of a block is tidy. Code is verbatim.
pub open spec fn tidy_block(b: OrgBlockView) -> bool {
    b is CodeBlock || tidy(spans_of_block(b))
}

/// Whether the inline content of blocks is tidy.
pub open spec fn tidy_blocks(bs: Seq<OrgBlockView>) -> bool {
    forall|i: int| 0 <= i < bs.len() ==> tidy_block(#[trigger] bs[i])
}

proof fn lemma_flushed(b: BuilderView)
    requires
        tidy_spans(b.spans),
    ensures
        tidy_spans(flushed(b).spans),
{
    if b.buf.len() > 0 {
        let f = flushed(b).spans;
        assert(no_newline(one_line(b.buf)));
        assert forall|i: int| 0 <= i < f.len() implies tidy_span(#[trigger] f[i]) by {
            if i < b.spans.len() {
                assert(f[i] == b.spans[i]);
            }
        }
    }
}

proof fn lemma_with_text(b: BuilderView, s: Seq<char>, markup: Option<Markup>)
    requires
        tidy_spans(b.spans),
    ensures
        tidy_spans(with_text(b, s, markup).spans),
{
    lemma_flushed(b);
}

proof fn lemma_with_span(b: BuilderView, s: SpanView)
    requires
        tidy_spans(b.spans),
        tidy_span(s),
    ensures
        tidy_spans(with_span(b, s).spans),
{
    lemma_flushed(b);
    let f = flushed(b).spans;
    let r = f.push(s);
    assert forall|i: int| 0 <= i < r.len() implies tidy_span(#[trigger] r[i]) by {
        if i < f.len() {
            assert(r[i] == f[i]);
        }
    }
}

proof fn lemma_visited(
    d: DocumentView,
    p: int,
    hi: int,
    b: BuilderView,
    markup: Option<Markup>,
)
    requires
        p < hi,
        tidy_spans(b.spans),
    ensures
        tidy_spans(visited(d, p, hi, b, markup).spans),
    decreases org::end_of(d, p, hi) - p, 0int,
{
    org::lemma_end_of(d, p, hi);
    let (_, kind, token) = d.elements[p];
    let end = org::end_of(d, p, hi);
    match token {
        Some(t) => {
            lemma_with_text(b, t, markup);
        },
        None => {
            if kind == "LINK"@ {
                if p < d.links.len() && d.links[p] is Some {
                    let (path, has, raw) = d.links[p]->0;
                    let description = if has { Some(raw) } else { None };
                    law_link_id_has_no_search_target(path);
                    lemma_with_span(b, SpanView::LinkRef { id: link_id(path), description });
                    lemma_with_span(b, SpanView::ExternalLink { url: path, description });
                    lemma_with_text(b, raw, markup);
                    lemma_with_text(b, path, markup);
                }
            } else {
                match emphasis_of(kind) {
                    Some((inner, delimiter)) => {
                        lemma_visited_all(d, p + 1, end, b, Some(inner), Some(delimiter));
                    },
                    None => {
                        lemma_visited_all(d, p + 1, end, b, markup, None);
                    },
                }
            }
        },
    }
}

proof fn lemma_visited_all(
    d: DocumentView,
    lo: int,
    hi: int,
    b: BuilderView,
    markup: Option<Markup>,
    skip: Option<Seq<char>>,
)
    requires
        tidy_spans(b.spans),
    ensures
        tidy_spans(visited_all(d, lo, hi, b, markup, skip).spans),
    decreases hi - lo, 1int,
{
    if lo < hi {
        org::lemma_end_of(d, lo, hi);
        let next = if d.elements[lo].2 is Some && skip == Some(d.elements[lo].1) {
            b
        } else {
            lemma_visited(d, lo, hi, b, markup);
            visited(d, lo, hi, b, markup)
        };
        lemma_visited_all(d, org::end_of(d, lo, hi), hi, next, markup, skip);
    }
}

proof fn lemma_trim_end(s: Seq<char>)
    ensures
        text::trim_end(s).len() <= s.len(),
        text::trim_end(s) == s.take(text::trim_end(s).len() as int),
    decreases s.len(),
{
    if s.len() > 0 && text::white_space(s.last()) {
        lemma_trim_end(s.drop_last());
        let r = text::trim_end(s);
        assert(s.drop_last().take(r.len() as int) =~= s.take(r.len() as int));
    } else {
        assert(s.take(s.len() as int) =~= s);
    }
}

proof fn lemma_finished(b: BuilderView)
    requires
        tidy_spans(b.spans),
    ensures
        tidy(finished(b)),
{
    lemma_flushed(b);
    let f = flushed(b).spans;
    let w = without_trailing_space(f);
    if f.len() > 0 {
        match own_text(f.last()) {
            Some(t) => {
                lemma_trim_end(t);
                let rest = text::trim_end(t);
                assert(own_text(f[f.len() - 1]) == Some(t));
                assert(no_newline(rest)) by {
                    assert forall|i: int| 0 <= i < rest.len() implies #[trigger] rest[i]
                        != '\n' by {
                        assert(rest[i] == t[i]);
                    }
                }
                assert forall|i: int| 0 <= i < w.len() implies tidy_span(#[trigger] w[i]) by {
                    if i < f.len() - 1 {
                        assert(w[i] == f[i]);
                    }
                }
            },
            None => {},
        }
    }
    if w.len() == 0 {
        let r = finished(b);
        assert(r[0] == SpanView::Text(Seq::<char>::empty()));
    }
}

proof fn lemma_spans_in(d: DocumentView, lo: int, hi: int)
    ensures
        tidy(spans_in(d, lo, hi)),
{
    lemma_visited_all(d, lo, hi, empty_builder(), None, None);
    lemma_finished(visited_all(d, lo, hi, empty_builder(), None, None));
}

proof fn lemma_tidy_concat(a: Seq<OrgBlockView>, b: Seq<OrgBlockView>)
    requires
        tidy_blocks(a),
        tidy_blocks(b),
    ensures
        tidy_blocks(a + b),
{
    let r = a + b;
    assert forall|i: int| 0 <= i < r.len() implies tidy_block(#[trigger] r[i]) by {
        if i < a.len() {
            assert(r[i] == a[i]);
        } else {
            assert(r[i] == b[i - a.len()]);
        }
    }
}

proof fn lemma_tidy_one(b: OrgBlockView)
    requires
        tidy_block(b),
    ensures
        tidy_blocks(seq![b]),
{
}

proof fn lemma_tidy_list(d: DocumentView, lo: int, hi: int)
    ensures
        tidy_blocks(list_blocks(d, lo, hi)),
    decreases hi - lo, 0int,
{
    if lo < hi {
        org::lemma_end_of(d, lo, hi);
        let end = org::end_of(d, lo, hi);
        lemma_tidy_list(d, end, hi);
        if org::is_node(d, lo, "LIST_ITEM"@) {
            org::lemma_first_child(d, lo + 1, end, "LIST_ITEM_CONTENT"@);
            match org::first_child(d, lo + 1, end, "LIST_ITEM_CONTENT"@) {
                Some(c) => {
                    org::lemma_end_of(d, c, end);
                    let content_end = org::end_of(d, c, end);
                    let own = item_paragraph(d, c + 1, content_end, is_ordered(d, lo + 1, end));
                    match org::first_child(d, c + 1, content_end, "PARAGRAPH"@) {
                        Some(p) => {
                            lemma_spans_in(d, p + 1, org::end_of(d, p, content_end));
                            lemma_tidy_one(own[0]);
                            assert(own =~= seq![own[0]]);
                        },
                        None => {},
                    }
                    let first = org::first_child(d, c + 1, content_end, "PARAGRAPH"@);
                    let more = content_blocks(d, c + 1, content_end, first);
                    lemma_tidy_content(d, c + 1, content_end, first);
                    lemma_tidy_concat(own, more);
                    lemma_tidy_concat(own + more, list_blocks(d, end, hi));
                },
                None => {},
            }
        }
    }
}

proof fn lemma_tidy_child(d: DocumentView, p: int, hi: int)
    ensures
        tidy_blocks(child_blocks(d, p, hi)),
    decreases hi - p, 0int,
{
    let end = org::end_of(d, p, hi);
    lemma_spans_in(d, p + 1, end);
    if p < hi {
        org::lemma_end_of(d, p, hi);
        lemma_tidy_list(d, p + 1, end);
    }
    match org::first_child(d, p + 1, end, "BLOCK_CONTENT"@) {
        Some(c) => {
            lemma_spans_in(d, c + 1, org::end_of(d, c, end));
        },
        None => {},
    }
}

proof fn lemma_tidy_content(d: DocumentView, lo: int, hi: int, skip: Option<int>)
    ensures
        tidy_blocks(content_blocks(d, lo, hi, skip)),
    decreases hi - lo, 1int,
{
    if lo < hi {
        org::lemma_end_of(d, lo, hi);
        let end = org::end_of(d, lo, hi);
        lemma_tidy_child(d, lo, hi);
        lemma_tidy_content(d, end, hi, skip);
        lemma_tidy_concat(child_blocks(d, lo, hi), content_blocks(d, end, hi, skip));
    }
}

proof fn lemma_tidy_first_section(d: DocumentView, lo: int, hi: int)
    ensures
        tidy_blocks(first_section(d, lo, hi)),
{
    match org::first_child(d, lo, hi, "SECTION"@) {
        Some(s) => lemma_tidy_content(d, s + 1, org::end_of(d, s, hi), None),
        None => {},
    }
}

proof fn lemma_tidy_headlines(d: DocumentView, lo: int, hi: int)
    ensures
        tidy_blocks(headline_blocks(d, lo, hi)),
    decreases hi - lo,
{
    if lo < hi {
        org::lemma_end_of(d, lo, hi);
        let end = org::end_of(d, lo, hi);
        lemma_tidy_headlines(d, end, hi);
        if org::is_node(d, lo, "HEADLINE"@) {
            let heading = heading_block(d, lo, lo + 1, end);
            match org::first_child(d, lo + 1, end, "HEADLINE_TITLE"@) {
                Some(t) => lemma_spans_in(d, t + 1, org::end_of(d, t, end)),
                None => lemma_finished(empty_builder()),
            }
            lemma_tidy_one(heading);
            lemma_tidy_first_section(d, lo + 1, end);
            lemma_tidy_headlines(d, lo + 1, end);
            lemma_tidy_concat(seq![heading], first_section(d, lo + 1, end));
            lemma_tidy_concat(
                seq![heading] + first_section(d, lo + 1, end),
                headline_blocks(d, lo + 1, end),
            );
            lemma_tidy_concat(
                seq![heading] + first_section(d, lo + 1, end) + headline_blocks(d, lo + 1, end),
                headline_blocks(d, end, hi),
            );
        }
    }
}

/// Every block of a node but code has at least one span, no text of its spans
/// holds a line feed, and no ID that it links to holds a search target.
pub proof fn law_spans_are_single_lines(p: PathView, d: DocumentView)
    requires
        node_of(p, d) is Some,
    ensures
        tidy_blocks((node_of(p, d)->0).blocks),
{
    let n = d.elements.len() as int;
    if n > 0 {
        let end = org::end_of(d, 0, n);
        lemma_tidy_first_section(d, 1, end);
        lemma_tidy_headlines(d, 1, end);
        lemma_tidy_concat(first_section(d, 1, end), headline_blocks(d, 1, end));
    }
}

/// The ID of a link holds no search target: nothing is left of an org `::`
/// suffix.
pub proof fn law_link_id_has_no_search_target(p: Seq<char>)
    ensures
        no_search_target(link_id(p)),
{
    reveal_strlit("::");
    let s = p.skip(3);
    let r = link_id(p);
    assert forall|i: int| !#[trigger] text::occurs_at(r, "::"@, i) by {
        if text::occurs_at(r, "::"@, i) {
            lemma_find_first(s, "::"@, 0, i);
            assert(r =~= s.take(r.len() as int));
            assert(s.subrange(i, i + 2) =~= r.subrange(i, i + 2));
        }
    }
}

/// None of the IDs that a node lists as its links holds a search target.
pub proof fn law_node_links_have_no_search_target(p: PathView, d: DocumentView)
    requires
        node_of(p, d) is Some,
    ensures
        forall|i: int|
            0 <= i < (node_of(p, d)->0).links.len() ==> no_search_target(
                #[trigger] (node_of(p, d)->0).links[i],
            ),
{
    let n = node_of(p, d)->0;
    law_spans_are_single_lines(p, d);
    law_node_links(p, d);
    assert forall|i: int| 0 <= i < n.links.len() implies no_search_target(
        #[trigger] n.links[i],
    ) by {
        let id = n.links[i];
        assert(n.links.contains(id));
        let (b, k) = choose|b: int, k: int| #[trigger] span_links_at(n.blocks, b, k, id);
        assert(tidy_block(n.blocks[b]));
        assert(tidy_span(spans_of_block(n.blocks[b])[k]));
    }
}

proof fn lemma_find_first(s: Seq<char>, pat: Seq<char>, from: int, i: int)
    requires
        0 <= from <= i,
    ensures
        text::find_from(s, pat, from) matches Some(k) ==> from <= k && k + pat.len() <= s.len() && (
        i < k ==> !text::occurs_at(s, pat, i)),
        text::find_from(s, pat, from) is None ==> !text::occurs_at(s, pat, i),
    decreases s.len() + 1 - from,
{
    if from + pat.len() <= s.len() && !text::occurs_at(s, pat, from) {
        if from < i {
            lemma_find_first(s, pat, from + 1, i);
        } else {
            lemma_find_first(s, pat, from + 1, from + 1);
        }
    }
}

} // verus!
