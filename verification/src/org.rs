//! An Org document as plain data: its syntax tree flattened to the list of its
//! elements in document order, and what the parser says of links, source
//! blocks, headlines, keywords and properties.

use crate::text;
use vstd::prelude::*;
use vstd::string::StringSliceAdditionalSpecFns;

verus! {

/// One element of the syntax tree: how deep it stands, the name of its kind,
/// and its text where it is a token (a node has none of its own).
#[derive(Debug, Clone, PartialEq, Eq)]
pub struct OrgElement {
    pub depth: usize,
    pub kind: String,
    pub text: Option<String>,
}

impl DeepView for OrgElement {
    type V = (usize, Seq<char>, Option<Seq<char>>);

    open spec fn deep_view(&self) -> (usize, Seq<char>, Option<Seq<char>>) {
        (self.depth, self.kind@, self.text.deep_view())
    }
}

/// A parsed Org document.
///
/// `links`, `sources` and `levels` run in step with `elements`: the entry of
/// an element that is a link holds its path, whether it has a description and
/// that description; of a source block its language and its text; of a
/// headline the number of its stars.
#[derive(Debug, Clone, PartialEq, Eq)]
pub struct OrgDocument {
    pub elements: Vec<OrgElement>,
    pub links: Vec<Option<(String, bool, String)>>,
    pub sources: Vec<Option<(Option<String>, String)>>,
    pub levels: Vec<Option<usize>>,
    pub title: Option<String>,
    pub properties: Option<Vec<(String, String)>>,
    pub keywords: Vec<(String, String)>,
}

/// The model of a parsed document.
pub struct DocumentView {
    pub elements: Seq<(usize, Seq<char>, Option<Seq<char>>)>,
    pub links: Seq<Option<(Seq<char>, bool, Seq<char>)>>,
    pub sources: Seq<Option<(Option<Seq<char>>, Seq<char>)>>,
    pub levels: Seq<Option<usize>>,
    pub title: Option<Seq<char>>,
    pub properties: Option<Seq<(Seq<char>, Seq<char>)>>,
    pub keywords: Seq<(Seq<char>, Seq<char>)>,
}

impl DeepView for OrgDocument {
    type V = DocumentView;

    open spec fn deep_view(&self) -> DocumentView {
        DocumentView {
            elements: self.elements.deep_view(),
            links: self.links.deep_view(),
            sources: self.sources.deep_view(),
            levels: self.levels.deep_view(),
            title: self.title.deep_view(),
            properties: self.properties.deep_view(),
            keywords: self.keywords.deep_view(),
        }
    }
}

// ---------------------------------------------------------------------
// What the parser returns
// ---------------------------------------------------------------------

/// The elements of the syntax tree of a text, in document order.
pub uninterp spec fn org_elements(s: Seq<char>) -> Seq<(usize, Seq<char>, Option<Seq<char>>)>;

/// What the parser says of each element that is a link.
pub uninterp spec fn org_links(s: Seq<char>) -> Seq<Option<(Seq<char>, bool, Seq<char>)>>;

/// What the parser says of each element that is a source block.
pub uninterp spec fn org_sources(s: Seq<char>) -> Seq<Option<(Option<Seq<char>>, Seq<char>)>>;

/// The number of stars of each element that is a headline.
pub uninterp spec fn org_levels(s: Seq<char>) -> Seq<Option<usize>>;

/// The keys and values of the file-level property drawer.
pub uninterp spec fn org_properties(s: Seq<char>) -> Option<Seq<(Seq<char>, Seq<char>)>>;

/// The keys and values of the keywords before the first headline.
pub uninterp spec fn org_keywords(s: Seq<char>) -> Seq<(Seq<char>, Seq<char>)>;

/// Whether a text is short enough to be parsed: the tree holds lengths and
/// offsets, in bytes, as 32-bit numbers, and a longer text makes the parser
/// panic.
pub open spec fn fits(s: Seq<char>) -> bool {
    vstd::utf8::encode_utf8(s).len() <= u32::MAX
}

/// `orgize::Org::parse` and rowan's `descendants_with_tokens` on the document:
/// every element of the tree in document order, each with the number of nodes
/// above it, the name of its `SyntaxKind` and the text of a token. A function
/// of the text alone. The text has at most `u32::MAX` bytes, here and below:
/// rowan's `TextSize` is 32 bits wide.
#[verifier::external_body]
fn parse_elements(s: &str) -> (r: Vec<OrgElement>)
    requires
        s.spec_bytes().len() <= u32::MAX,
    ensures
        r.deep_view() == org_elements(s@),
{
    orgize::rowan::ast::AstNode::syntax(&orgize::Org::parse(s).document())
        .descendants_with_tokens()
        .map(
            |e| OrgElement {
                depth: e.parent().map_or(0, |p| p.ancestors().count()),
                kind: format!("{:?}", e.kind()),
                text: e.as_token().map(|t| t.text().to_string()),
            },
        )
        .collect()
}

/// `orgize::ast::Link` (`path`, `has_description`, `description_raw`) on every
/// element of the tree in document order; none for an element that is no link.
/// A function of the text alone.
#[verifier::external_body]
fn parse_links(s: &str) -> (r: Vec<Option<(String, bool, String)>>)
    requires
        s.spec_bytes().len() <= u32::MAX,
    ensures
        r.deep_view() == org_links(s@),
{
    orgize::rowan::ast::AstNode::syntax(&orgize::Org::parse(s).document())
        .descendants_with_tokens()
        .map(
            |e| e.into_node()
                .and_then(<orgize::ast::Link as orgize::rowan::ast::AstNode>::cast)
                .map(|l| (l.path().to_string(), l.has_description(), l.description_raw())),
        )
        .collect()
}

/// `orgize::ast::SourceBlock` (`language`, `value`) on every element of the
/// tree in document order; none for an element that is no source block. A
/// function of the text alone.
#[verifier::external_body]
fn parse_sources(s: &str) -> (r: Vec<Option<(Option<String>, String)>>)
    requires
        s.spec_bytes().len() <= u32::MAX,
    ensures
        r.deep_view() == org_sources(s@),
{
    orgize::rowan::ast::AstNode::syntax(&orgize::Org::parse(s).document())
        .descendants_with_tokens()
        .map(
            |e| e.into_node()
                .and_then(<orgize::ast::SourceBlock as orgize::rowan::ast::AstNode>::cast)
                .map(|b| (b.language().map(|t| t.to_string()), b.value())),
        )
        .collect()
}

/// `orgize::ast::Headline::level` on every element of the tree in document
/// order; none for an element that is no headline. A function of the text
/// alone.
#[verifier::external_body]
fn parse_levels(s: &str) -> (r: Vec<Option<usize>>)
    requires
        s.spec_bytes().len() <= u32::MAX,
    ensures
        r.deep_view() == org_levels(s@),
{
    orgize::rowan::ast::AstNode::syntax(&orgize::Org::parse(s).document())
        .descendants_with_tokens()
        .map(
            |e| e.into_node()
                .and_then(<orgize::ast::Headline as orgize::rowan::ast::AstNode>::cast)
                .map(|h| h.level()),
        )
        .collect()
}

/// The values of the `#+TITLE` keywords, without the white space around them,
/// joined with spaces; none where there is no such keyword.
pub open spec fn joined_titles(keywords: Seq<(Seq<char>, Seq<char>)>) -> Option<Seq<char>>
    decreases keywords.len(),
{
    if keywords.len() == 0 {
        None
    } else {
        let head = joined_titles(keywords.drop_last());
        let value = text::trim(keywords.last().1);
        if !text::same_ignoring_case(keywords.last().0, "TITLE"@) {
            head
        } else if head is Some && head->0.len() > 0 {
            Some(head->0 + " "@ + value)
        } else {
            Some(value)
        }
    }
}

/// `orgize::ast::Document::title`: the values of the `#+TITLE` keywords among
/// those that `Document::keywords` gives, trimmed and joined with spaces.
#[verifier::external_body]
fn parse_title(s: &str) -> (r: Option<String>)
    requires
        s.spec_bytes().len() <= u32::MAX,
    ensures
        r.deep_view() == joined_titles(org_keywords(s@)),
{
    orgize::Org::parse(s).document().title()
}

/// `orgize::ast::Document::properties` and the pairs that
/// `PropertyDrawer::iter` gives, in order: a function of the text alone.
#[verifier::external_body]
fn parse_properties(s: &str) -> (r: Option<Vec<(String, String)>>)
    requires
        s.spec_bytes().len() <= u32::MAX,
    ensures
        r.deep_view() == org_properties(s@),
{
    orgize::Org::parse(s)
        .document()
        .properties()
        .map(|d| d.iter().map(|(k, v)| (k.to_string(), v.to_string())).collect())
}

/// `orgize::ast::Document::keywords`, each with its `key` and `value`, in
/// order: a function of the text alone.
#[verifier::external_body]
fn parse_keywords(s: &str) -> (r: Vec<(String, String)>)
    requires
        s.spec_bytes().len() <= u32::MAX,
    ensures
        r.deep_view() == org_keywords(s@),
{
    orgize::Org::parse(s)
        .document()
        .keywords()
        .map(|k| (k.key().to_string(), k.value().to_string()))
        .collect()
}

/// The document that the parser makes of a text.
pub open spec fn document_of(s: Seq<char>) -> DocumentView {
    DocumentView {
        elements: org_elements(s),
        links: org_links(s),
        sources: org_sources(s),
        levels: org_levels(s),
        title: joined_titles(org_keywords(s)),
        properties: org_properties(s),
        keywords: org_keywords(s),
    }
}

/// Parses a text, which has at most `u32::MAX` bytes.
pub fn read_document(s: &str) -> (r: OrgDocument)
    requires
        s.spec_bytes().len() <= u32::MAX,
    ensures
        r.deep_view() == document_of(s@),
{
    OrgDocument {
        elements: parse_elements(s),
        links: parse_links(s),
        sources: parse_sources(s),
        levels: parse_levels(s),
        title: parse_title(s),
        properties: parse_properties(s),
        keywords: parse_keywords(s),
    }
}

// ---------------------------------------------------------------------
// The tree
// ---------------------------------------------------------------------

/// The first position from `q` on, and at most `hi`, of an element that does
/// not stand deeper than `depth`.
pub open spec fn scan_end(d: DocumentView, depth: usize, q: int, hi: int) -> int
    decreases hi - q,
{
    if q >= hi {
        hi
    } else if d.elements[q].0 <= depth {
        q
    } else {
        scan_end(d, depth, q + 1, hi)
    }
}

/// The end of the subtree at `p` in a range that ends at `hi`.
pub open spec fn end_of(d: DocumentView, p: int, hi: int) -> int {
    scan_end(d, d.elements[p].0, p + 1, hi)
}

/// A subtree ends behind its first element and within the range.
pub proof fn lemma_end_of(d: DocumentView, p: int, hi: int)
    requires
        p < hi,
    ensures
        p < end_of(d, p, hi) <= hi,
{
    lemma_scan_end(d, d.elements[p].0, p + 1, hi);
}

proof fn lemma_scan_end(d: DocumentView, depth: usize, q: int, hi: int)
    requires
        q <= hi,
    ensures
        q <= scan_end(d, depth, q, hi) <= hi,
    decreases hi - q,
{
    if q < hi && d.elements[q].0 > depth {
        lemma_scan_end(d, depth, q + 1, hi);
    }
}

/// Whether the element at `p` is a node of the given kind.
pub open spec fn is_node(d: DocumentView, p: int, kind: Seq<char>) -> bool {
    d.elements[p].2 is None && d.elements[p].1 == kind
}

/// The first of the subtrees in `lo..hi` that is a node of the given kind.
pub open spec fn first_child(d: DocumentView, lo: int, hi: int, kind: Seq<char>) -> Option<int>
    decreases hi - lo,
{
    if lo >= hi {
        None
    } else if is_node(d, lo, kind) {
        Some(lo)
    } else {
        proof {
            lemma_end_of(d, lo, hi);
        }
        first_child(d, end_of(d, lo, hi), hi, kind)
    }
}

/// A child that was found lies in the range that was searched.
pub proof fn lemma_first_child(d: DocumentView, lo: int, hi: int, kind: Seq<char>)
    ensures
        first_child(d, lo, hi, kind) matches Some(c) ==> lo <= c < hi && is_node(d, c, kind),
    decreases hi - lo,
{
    if lo < hi && !is_node(d, lo, kind) {
        lemma_end_of(d, lo, hi);
        lemma_first_child(d, end_of(d, lo, hi), hi, kind);
    }
}

impl OrgDocument {
    /// The end of the subtree at `p` in a range that ends at `hi`.
    pub fn subtree_end(&self, p: usize, hi: usize) -> (r: usize)
        requires
            p < hi <= self.elements@.len(),
        ensures
            r == end_of(self.deep_view(), p as int, hi as int),
            p < r <= hi,
    {
        let depth: usize = self.elements[p].depth;
        let mut q: usize = p + 1;
        while q < hi && self.elements[q].depth > depth
            invariant
                p < q <= hi <= self.elements@.len(),
                scan_end(self.deep_view(), depth, q as int, hi as int) == end_of(
                    self.deep_view(),
                    p as int,
                    hi as int,
                ),
            decreases hi - q,
        {
            q = q + 1;
        }
        q
    }

    /// Whether the element at `p` is a node of the given kind.
    pub fn node_at(&self, p: usize, kind: &str) -> (r: bool)
        requires
            p < self.elements@.len(),
        ensures
            r == is_node(self.deep_view(), p as int, kind@),
    {
        self.elements[p].text.is_none() && crate::text::same_text(
            self.elements[p].kind.as_str(),
            kind,
        )
    }

    /// The first of the subtrees in `lo..hi` that is a node of the given kind.
    pub fn child(&self, lo: usize, hi: usize, kind: &str) -> (r: Option<usize>)
        requires
            lo <= hi <= self.elements@.len(),
        ensures
            match r {
                Some(c) => first_child(self.deep_view(), lo as int, hi as int, kind@) == Some(
                    c as int,
                ) && lo <= c < hi,
                None => first_child(self.deep_view(), lo as int, hi as int, kind@) is None,
            },
    {
        let mut q: usize = lo;
        while q < hi
            invariant
                lo <= q <= hi <= self.elements@.len(),
                first_child(self.deep_view(), q as int, hi as int, kind@) == first_child(
                    self.deep_view(),
                    lo as int,
                    hi as int,
                    kind@,
                ),
            decreases hi - q,
        {
            if self.node_at(q, kind) {
                return Some(q);
            }
            q = self.subtree_end(q, hi);
        }
        None
    }
}

} // verus!
