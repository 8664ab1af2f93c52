//! What a node is read from, said of the parsed document itself.

use crate::laws::texts;
use crate::org;
use crate::org::DocumentView;
use crate::org_parser;
use crate::org_parser::{BuilderView, Markup, OrgBlockView, SpanView};
use crate::path;
use crate::path::PathView;
use crate::text;
use crate::text::Separator;
use vstd::prelude::*;

verus! {

// ---------------------------------------------------------------------
// The ID, the title and the tags
// ---------------------------------------------------------------------

/// Whether the `k`th pair is the first whose key is the given one, but for case.
pub open spec fn first_with_key(pairs: Seq<(Seq<char>, Seq<char>)>, key: Seq<char>, k: int) -> bool {
    &&& 0 <= k < pairs.len()
    &&& texts::same_but_for_case(pairs[k].0, key)
    &&& forall|j: int| 0 <= j < k ==> !texts::same_but_for_case((#[trigger] pairs[j]).0, key)
}

/// Whether no pair has the key.
pub open spec fn without_key(pairs: Seq<(Seq<char>, Seq<char>)>, key: Seq<char>) -> bool {
    forall|j: int| 0 <= j < pairs.len() ==> !texts::same_but_for_case((#[trigger] pairs[j]).0, key)
}

proof fn lemma_lookup(pairs: Seq<(Seq<char>, Seq<char>)>, key: Seq<char>)
    ensures
        without_key(pairs, key) ==> org_parser::lookup(pairs, key) is None,
        forall|k: int| #[trigger]
            first_with_key(pairs, key, k) ==> org_parser::lookup(pairs, key) == Some(
                text::trim(pairs[k].1),
            ),
    decreases pairs.len(),
{
    if pairs.len() > 0 {
        let t = pairs.drop_first();
        texts::law_case_is_ignored(pairs.first().0, key);
        lemma_lookup(t, key);
        assert(pairs[0] == pairs.first());
        if without_key(pairs, key) {
            assert forall|j: int| 0 <= j < t.len() implies !texts::same_but_for_case(
                (#[trigger] t[j]).0,
                key,
            ) by {
                assert(t[j] == pairs[j + 1]);
            }
        }
        assert forall|k: int| #[trigger] first_with_key(pairs, key, k) implies org_parser::lookup(
            pairs,
            key,
        ) == Some(text::trim(pairs[k].1)) by {
            if k > 0 {
                assert(t[k - 1] == pairs[k]);
                assert forall|j: int| 0 <= j < k - 1 implies !texts::same_but_for_case(
                    (#[trigger] t[j]).0,
                    key,
                ) by {
                    assert(t[j] == pairs[j + 1]);
                }
                assert(first_with_key(t, key, k - 1));
            }
        }
    }
}

/// Whether the property drawer gives no ID.
pub open spec fn no_id_in_drawer(d: DocumentView) -> bool {
    d.properties matches Some(pairs) ==> without_key(pairs, "ID"@)
}

/// The ID of a node is the first `ID` of its property drawer; where the drawer
/// has none, the first `#+ID:` keyword; and without either there is no node.
/// The white space around it is no part of it. The node knows its file.
pub proof fn law_id_is_read(p: PathView, d: DocumentView)
    ensures
        forall|k: int|
            d.properties is Some && #[trigger] first_with_key(d.properties->0, "ID"@, k) ==> (
            org_parser::node_of(p, d) matches Some(n) && n.id == text::trim(
                (d.properties->0)[k].1,
            )),
        forall|k: int|
            no_id_in_drawer(d) && #[trigger] first_with_key(d.keywords, "ID"@, k) ==> (
            org_parser::node_of(p, d) matches Some(n) && n.id == text::trim(d.keywords[k].1)),
        no_id_in_drawer(d) && without_key(d.keywords, "ID"@) ==> org_parser::node_of(p, d) is None,
        org_parser::node_of(p, d) matches Some(n) ==> n.file_path == p,
{
    lemma_lookup(d.keywords, "ID"@);
    if d.properties is Some {
        lemma_lookup(d.properties->0, "ID"@);
    }
}

/// What a span reads as.
pub open spec fn reading_of(s: SpanView) -> Seq<char> {
    match s {
        SpanView::Text(t) => t,
        SpanView::Marked { text, .. } => text,
        SpanView::LinkRef { description: Some(t), .. } => t,
        SpanView::LinkRef { id, description: None } => id,
        SpanView::ExternalLink { description: Some(t), .. } => t,
        SpanView::ExternalLink { url, description: None } => url,
    }
}

/// Spans read as what each reads as, one after another: a link as its
/// description, and without one as what it links to.
pub proof fn law_spans_read_in_order(a: Seq<SpanView>, b: Seq<SpanView>, s: SpanView)
    ensures
        org_parser::plain_text(a + b) == org_parser::plain_text(a) + org_parser::plain_text(b),
        org_parser::plain_text(seq![s]) == reading_of(s),
        org_parser::plain_text(Seq::<SpanView>::empty()) == Seq::<char>::empty(),
    decreases b.len(),
{
    assert(seq![s].drop_last() =~= Seq::<SpanView>::empty());
    assert(org_parser::plain_text(seq![s].drop_last()) =~= Seq::<char>::empty());
    assert(org_parser::plain_text(seq![s]) =~= reading_of(s));
    if b.len() == 0 {
        assert(a + b =~= a);
        assert(org_parser::plain_text(a + b) =~= org_parser::plain_text(a)
            + org_parser::plain_text(b));
    } else {
        law_spans_read_in_order(a, b.drop_last(), s);
        assert((a + b).drop_last() =~= a + b.drop_last());
        assert((a + b).last() == b.last());
        assert(org_parser::plain_text(a + b) =~= org_parser::plain_text(a)
            + org_parser::plain_text(b));
    }
}

/// Whether the `k`th block is the first heading.
pub open spec fn first_heading_at(blocks: Seq<OrgBlockView>, k: int) -> bool {
    &&& 0 <= k < blocks.len()
    &&& blocks[k] is Heading
    &&& forall|j: int| 0 <= j < k ==> !(#[trigger] blocks[j] is Heading)
}

proof fn lemma_first_heading(blocks: Seq<OrgBlockView>)
    ensures
        (forall|j: int| 0 <= j < blocks.len() ==> !(#[trigger] blocks[j] is Heading))
            ==> org_parser::first_heading(blocks) is None,
        forall|k: int| #[trigger]
            first_heading_at(blocks, k) ==> org_parser::first_heading(blocks) == Some(
                org_parser::plain_text(blocks[k]->Heading_spans),
            ),
    decreases blocks.len(),
{
    if blocks.len() > 0 {
        let t = blocks.drop_first();
        lemma_first_heading(t);
        assert(blocks[0] == blocks.first());
        if forall|j: int| 0 <= j < blocks.len() ==> !(#[trigger] blocks[j] is Heading) {
            assert forall|j: int| 0 <= j < t.len() implies !(#[trigger] t[j] is Heading) by {
                assert(t[j] == blocks[j + 1]);
            }
        }
        assert forall|k: int| #[trigger] first_heading_at(blocks, k) implies org_parser::first_heading(
            blocks,
        ) == Some(org_parser::plain_text(blocks[k]->Heading_spans)) by {
            if k > 0 {
                assert(t[k - 1] == blocks[k]);
                assert forall|j: int| 0 <= j < k - 1 implies !(#[trigger] t[j] is Heading) by {
                    assert(t[j] == blocks[j + 1]);
                }
                assert(first_heading_at(t, k - 1));
            }
        }
    }
}

/// Whether a document gives no title of its own.
pub open spec fn untitled(d: DocumentView) -> bool {
    d.title matches Some(t) ==> text::trim(t).len() == 0
}

/// The title of a node is that of its document; where it has none, what its
/// first heading reads as; without a heading, the name of its file without the
/// extension; and without a name, `untitled`.
pub proof fn law_title_is_read(p: PathView, d: DocumentView)
    requires
        org_parser::node_of(p, d) is Some,
    ensures
        ({
            let n = org_parser::node_of(p, d)->0;
            &&& !untitled(d) ==> n.title == text::trim(d.title->0)
            &&& forall|k: int|
                untitled(d) && #[trigger] first_heading_at(n.blocks, k) ==> n.title
                    == org_parser::plain_text(n.blocks[k]->Heading_spans)
            &&& untitled(d) && (forall|j: int|
                0 <= j < n.blocks.len() ==> !(#[trigger] n.blocks[j] is Heading)) ==> n.title == (
            match path::name_of(p) {
                Some(name) => path::stem(name),
                None => "untitled"@,
            })
        }),
{
    lemma_first_heading((org_parser::node_of(p, d)->0).blocks);
}

/// The title of a document is made of all its `#+TITLE:` keywords, in order and
/// with a space between each two, each without the white space around it.
pub proof fn law_titles_are_joined(
    keywords: Seq<(Seq<char>, Seq<char>)>,
    key: Seq<char>,
    value: Seq<char>,
)
    ensures
        org::joined_titles(Seq::<(Seq<char>, Seq<char>)>::empty()) is None,
        ({
            let before = org::joined_titles(keywords);
            let after = org::joined_titles(keywords.push((key, value)));
            &&& !texts::same_but_for_case(key, "TITLE"@) ==> after == before
            &&& texts::same_but_for_case(key, "TITLE"@) ==> after == Some(
                if before is Some && before->0.len() > 0 {
                    before->0.push(' ') + text::trim(value)
                } else {
                    text::trim(value)
                },
            )
        }),
{
    texts::law_case_is_ignored(key, "TITLE"@);
    reveal_strlit(" ");
    assert(keywords.push((key, value)).drop_last() =~= keywords);
    let before = org::joined_titles(keywords);
    if before is Some {
        assert(before->0 + " "@ =~= before->0.push(' '));
    }
}

/// The tags of a node are the words of its `#+filetags:` keywords, in order;
/// words are parted by colons, spaces and tabs.
pub proof fn law_tags_are_read(
    a: Seq<(Seq<char>, Seq<char>)>,
    b: Seq<(Seq<char>, Seq<char>)>,
    key: Seq<char>,
    value: Seq<char>,
    p: PathView,
    d: DocumentView,
)
    ensures
        org_parser::node_of(p, d) matches Some(n) ==> n.tags == org_parser::filetags(d.keywords),
        org_parser::filetags(a + b) == org_parser::filetags(a) + org_parser::filetags(b),
        org_parser::filetags(seq![(key, value)]) == (if texts::same_but_for_case(
            key,
            "FILETAGS"@,
        ) {
            text::nonblank_trimmed(text::split_by(value, Separator::Tag))
        } else {
            Seq::<Seq<char>>::empty()
        }),
    decreases b.len(),
{
    texts::law_case_is_ignored(key, "FILETAGS"@);
    let one = seq![(key, value)];
    assert(one.drop_last() =~= Seq::<(Seq<char>, Seq<char>)>::empty());
    assert(org_parser::filetags(one.drop_last()) =~= Seq::<Seq<char>>::empty());
    let words = text::nonblank_trimmed(text::split_by(value, Separator::Tag));
    assert(Seq::<Seq<char>>::empty() + words =~= words);
    if b.len() == 0 {
        assert(a + b =~= a);
        assert(org_parser::filetags(a + b) =~= org_parser::filetags(a) + org_parser::filetags(b));
    } else {
        law_tags_are_read(a, b.drop_last(), key, value, p, d);
        assert((a + b).drop_last() =~= a + b.drop_last());
        assert((a + b).last() == b.last());
        assert(org_parser::filetags(a + b) =~= org_parser::filetags(a) + org_parser::filetags(b));
    }
}

// ---------------------------------------------------------------------
// Links
// ---------------------------------------------------------------------

/// Every kind of block but code has inline content, and links in any of them
/// count, in order.
pub proof fn law_block_links(
    a: Seq<OrgBlockView>,
    b: Seq<OrgBlockView>,
    level: u8,
    spans: Seq<SpanView>,
    language: Option<Seq<char>>,
    content: Seq<char>,
)
    ensures
        org_parser::block_links(a + b) == org_parser::block_links(a) + org_parser::block_links(b),
        org_parser::block_links(seq![OrgBlockView::Heading { level, spans }])
            == org_parser::span_links(spans),
        org_parser::block_links(seq![OrgBlockView::Paragraph { spans }])
            == org_parser::span_links(spans),
        org_parser::block_links(seq![OrgBlockView::BulletItem { spans }])
            == org_parser::span_links(spans),
        org_parser::block_links(seq![OrgBlockView::NumberedItem { spans }])
            == org_parser::span_links(spans),
        org_parser::block_links(seq![OrgBlockView::Quote { spans }]) == org_parser::span_links(
            spans,
        ),
        org_parser::block_links(seq![OrgBlockView::CodeBlock { language, content }]).len() == 0,
        org_parser::spans_of_block(OrgBlockView::Heading { level, spans }) == spans,
        org_parser::spans_of_block(OrgBlockView::Paragraph { spans }) == spans,
        org_parser::spans_of_block(OrgBlockView::BulletItem { spans }) == spans,
        org_parser::spans_of_block(OrgBlockView::NumberedItem { spans }) == spans,
        org_parser::spans_of_block(OrgBlockView::Quote { spans }) == spans,
        org_parser::spans_of_block(OrgBlockView::CodeBlock { language, content }).len() == 0,
    decreases b.len(),
{
    assert forall|x: OrgBlockView| #[trigger] org_parser::block_links(seq![x])
        == org_parser::span_links(org_parser::spans_of_block(x)) by {
        let one = seq![x];
        assert(one.drop_last() =~= Seq::<OrgBlockView>::empty());
        assert(org_parser::block_links(one.drop_last()) =~= Seq::<Seq<char>>::empty());
        assert(org_parser::block_links(one) =~= org_parser::span_links(
            org_parser::spans_of_block(x),
        ));
    }
    if b.len() == 0 {
        assert(a + b =~= a);
        assert(org_parser::block_links(a + b) =~= org_parser::block_links(a)
            + org_parser::block_links(b));
    } else {
        law_block_links(a, b.drop_last(), level, spans, language, content);
        assert((a + b).drop_last() =~= a + b.drop_last());
        assert((a + b).last() == b.last());
        assert(org_parser::block_links(a + b) =~= org_parser::block_links(a)
            + org_parser::block_links(b));
    }
}

/// Of spans, exactly the links to nodes count as links, in order.
pub proof fn law_span_links(a: Seq<SpanView>, b: Seq<SpanView>, s: SpanView)
    ensures
        org_parser::span_links(a + b) == org_parser::span_links(a) + org_parser::span_links(b),
        org_parser::span_links(seq![s]) == (match s {
            SpanView::LinkRef { id, .. } => seq![id],
            _ => Seq::<Seq<char>>::empty(),
        }),
    decreases b.len(),
{
    assert(seq![s].drop_last() =~= Seq::<SpanView>::empty());
    assert(org_parser::span_links(seq![s].drop_last()) =~= Seq::<Seq<char>>::empty());
    assert(org_parser::span_links(seq![s]) =~= match s {
        SpanView::LinkRef { id, .. } => seq![id],
        _ => Seq::<Seq<char>>::empty(),
    });
    if b.len() == 0 {
        assert(a + b =~= a);
        assert(org_parser::span_links(a + b) =~= org_parser::span_links(a)
            + org_parser::span_links(b));
    } else {
        law_span_links(a, b.drop_last(), s);
        assert((a + b).drop_last() =~= a + b.drop_last());
        assert((a + b).last() == b.last());
        assert(org_parser::span_links(a + b) =~= org_parser::span_links(a)
            + org_parser::span_links(b));
    }
}

/// A node's links are those of its blocks, each once: an ID comes in when a link
/// to it is first met, behind those that were met before.
pub proof fn law_links_as_first_met(ids: Seq<Seq<char>>, id: Seq<char>, p: PathView, d: DocumentView)
    ensures
        org_parser::node_of(p, d) matches Some(n) ==> n.links == org_parser::first_seen(
            org_parser::block_links(n.blocks),
        ),
        org_parser::first_seen(Seq::<Seq<char>>::empty()).len() == 0,
        ids.contains(id) ==> org_parser::first_seen(ids.push(id)) == org_parser::first_seen(ids),
        !ids.contains(id) ==> org_parser::first_seen(ids.push(id)) == org_parser::first_seen(
            ids,
        ).push(id),
{
    org_parser::law_first_seen(ids);
    assert(ids.push(id).drop_last() =~= ids);
    assert(org_parser::first_seen(ids).contains(id) <==> ids.contains(id));
}

// ---------------------------------------------------------------------
// Inline content
// ---------------------------------------------------------------------

/// The smallest parts of inline content: a character, by its code, with its
/// emphasis; or a whole link.
pub enum Atom {
    Letter(int, Option<Markup>),
    Link(SpanView),
}

/// The atoms of a text.
pub open spec fn text_atoms(t: Seq<char>, markup: Option<Markup>) -> Seq<Atom> {
    Seq::new(t.len(), |i: int| Atom::Letter(t[i] as int, markup))
}

/// The atoms of a span.
pub open spec fn span_atoms(s: SpanView) -> Seq<Atom> {
    match s {
        SpanView::Text(t) => text_atoms(t, None),
        SpanView::Marked { text, markup } => text_atoms(text, Some(markup)),
        link => seq![Atom::Link(link)],
    }
}

/// The atoms of spans, one after another.
pub open spec fn all_atoms(spans: Seq<SpanView>) -> Seq<Atom>
    decreases spans.len(),
{
    if spans.len() == 0 {
        Seq::<Atom>::empty()
    } else {
        all_atoms(spans.drop_last()) + span_atoms(spans.last())
    }
}

/// The atoms of a token's text: a line feed counts as a space.
pub open spec fn token_atoms(t: Seq<char>, markup: Option<Markup>) -> Seq<Atom> {
    Seq::new(
        t.len(),
        |i: int| Atom::Letter(if t[i] == '\n' { ' ' as int } else { t[i] as int }, markup),
    )
}

/// The emphasis that a kind of node stands for, and the kind of the tokens around
/// the emphasized text.
pub open spec fn emphasis(kind: Seq<char>) -> Option<(Markup, Seq<char>)> {
    if kind == "BOLD"@ {
        Some((Markup::Bold, "STAR"@))
    } else if kind == "ITALIC"@ {
        Some((Markup::Italic, "SLASH"@))
    } else if kind == "UNDERLINE"@ {
        Some((Markup::Underline, "UNDERSCORE"@))
    } else if kind == "STRIKE"@ {
        Some((Markup::Strikethrough, "PLUS"@))
    } else if kind == "CODE"@ {
        Some((Markup::Code, "TILDE"@))
    } else if kind == "VERBATIM"@ {
        Some((Markup::Code, "EQUAL"@))
    } else {
        None
    }
}

/// Whether a text starts with another.
pub open spec fn begins(s: Seq<char>, x: Seq<char>) -> bool {
    x.len() <= s.len() && s == x + s.skip(x.len() as int)
}

/// The atoms of a link: to a node, to the web or to a mail address; any other
/// link is the text of its description, or of its path.
pub open spec fn link_atoms(
    p: Seq<char>,
    has_description: bool,
    raw: Seq<char>,
    markup: Option<Markup>,
) -> Seq<Atom> {
    let description = if has_description {
        Some(raw)
    } else {
        None
    };
    if begins(p, "id:"@) {
        seq![
            Atom::Link(
                SpanView::LinkRef { id: text::before_first(p.skip(3), "::"@), description },
            ),
        ]
    } else if begins(p, "https://"@) || begins(p, "http://"@) || begins(p, "mailto:"@) {
        seq![Atom::Link(SpanView::ExternalLink { url: p, description })]
    } else {
        token_atoms(
            if has_description {
                raw
            } else {
                p
            },
            markup,
        )
    }
}

/// The atoms of the element at `p`: those of a token's text, but for a blank
/// line; a link's; and those of what else the element consists of, with its own
/// emphasis and without the tokens that mark it.
pub open spec fn element_atoms(d: DocumentView, p: int, hi: int, markup: Option<Markup>) -> Seq<Atom>
    decreases org::end_of(d, p, hi) - p, 0int,
    when p < hi
{
    proof {
        org::lemma_end_of(d, p, hi);
    }
    let (_, kind, token) = d.elements[p];
    let end = org::end_of(d, p, hi);
    match token {
        Some(t) => if kind == "BLANK_LINE"@ {
            Seq::<Atom>::empty()
        } else {
            token_atoms(t, markup)
        },
        None => if kind == "LINK"@ {
            if p < d.links.len() && d.links[p] is Some {
                let (path, has, raw) = d.links[p]->0;
                link_atoms(path, has, raw, markup)
            } else {
                Seq::<Atom>::empty()
            }
        } else {
            match emphasis(kind) {
                Some((inner, mark)) => range_atoms(d, p + 1, end, Some(inner), Some(mark)),
                None => range_atoms(d, p + 1, end, markup, None),
            }
        },
    }
}

/// The atoms of the subtrees in `lo..hi`, the tokens that mark an emphasis left
/// out.
pub open spec fn range_atoms(
    d: DocumentView,
    lo: int,
    hi: int,
    markup: Option<Markup>,
    mark: Option<Seq<char>>,
) -> Seq<Atom>
    decreases hi - lo, 1int,
{
    if lo >= hi {
        Seq::<Atom>::empty()
    } else {
        proof {
            org::lemma_end_of(d, lo, hi);
        }
        let own = if d.elements[lo].2 is Some && mark == Some(d.elements[lo].1) {
            Seq::<Atom>::empty()
        } else {
            element_atoms(d, lo, hi, markup)
        };
        own + range_atoms(d, org::end_of(d, lo, hi), hi, markup, mark)
    }
}

/// The atoms that a builder has been given.
spec fn builder_atoms(b: BuilderView) -> Seq<Atom> {
    all_atoms(b.spans) + token_atoms(b.buf, b.markup)
}

proof fn lemma_atoms_push(spans: Seq<SpanView>, s: SpanView)
    ensures
        all_atoms(spans.push(s)) == all_atoms(spans) + span_atoms(s),
{
    assert(spans.push(s).drop_last() =~= spans);
}

proof fn lemma_token_concat(a: Seq<char>, b: Seq<char>, markup: Option<Markup>)
    ensures
        token_atoms(a + b, markup) == token_atoms(a, markup) + token_atoms(b, markup),
{
    assert(token_atoms(a + b, markup) =~= token_atoms(a, markup) + token_atoms(b, markup));
}

proof fn lemma_flushed_atoms(b: BuilderView)
    ensures
        builder_atoms(org_parser::flushed(b)) == builder_atoms(b),
        org_parser::flushed(b).buf.len() == 0,
        all_atoms(org_parser::flushed(b).spans) == builder_atoms(b),
{
    if b.buf.len() == 0 {
        assert(builder_atoms(b) =~= all_atoms(b.spans));
    } else {
        let f = org_parser::flushed(b);
        lemma_atoms_push(b.spans, f.spans.last());
        assert(f.spans =~= b.spans.push(f.spans.last()));
        assert(span_atoms(f.spans.last()) =~= token_atoms(b.buf, b.markup));
        assert(builder_atoms(f) =~= all_atoms(f.spans));
    }
}

proof fn lemma_with_text_atoms(b: BuilderView, s: Seq<char>, markup: Option<Markup>)
    ensures
        builder_atoms(org_parser::with_text(b, s, markup)) == builder_atoms(b) + token_atoms(
            s,
            markup,
        ),
{
    lemma_flushed_atoms(b);
    if markup == b.markup {
        lemma_token_concat(b.buf, s, markup);
        assert(builder_atoms(org_parser::with_text(b, s, markup)) =~= builder_atoms(b)
            + token_atoms(s, markup));
    } else {
        let f = org_parser::flushed(b);
        assert(f.buf + s =~= s);
        assert(builder_atoms(org_parser::with_text(b, s, markup)) =~= builder_atoms(b)
            + token_atoms(s, markup));
    }
}

proof fn lemma_with_span_atoms(b: BuilderView, s: SpanView)
    requires
        s is LinkRef || s is ExternalLink,
    ensures
        builder_atoms(org_parser::with_span(b, s)) == builder_atoms(b) + seq![Atom::Link(s)],
{
    lemma_flushed_atoms(b);
    lemma_atoms_push(org_parser::flushed(b).spans, s);
    assert(builder_atoms(org_parser::with_span(b, s)) =~= builder_atoms(b) + seq![Atom::Link(s)]);
}

proof fn lemma_visited_atoms(
    d: DocumentView,
    p: int,
    hi: int,
    b: BuilderView,
    markup: Option<Markup>,
)
    requires
        p < hi,
    ensures
        builder_atoms(org_parser::visited(d, p, hi, b, markup)) == builder_atoms(b)
            + element_atoms(d, p, hi, markup),
    decreases org::end_of(d, p, hi) - p, 0int,
{
    org::lemma_end_of(d, p, hi);
    let (_, kind, token) = d.elements[p];
    let end = org::end_of(d, p, hi);
    let none = Seq::<Atom>::empty();
    assert(builder_atoms(b) + none =~= builder_atoms(b));
    match token {
        Some(t) => {
            lemma_with_text_atoms(b, t, markup);
        },
        None => {
            if kind == "LINK"@ {
                if p < d.links.len() && d.links[p] is Some {
                    let (path, has, raw) = d.links[p]->0;
                    let description = if has { Some(raw) } else { None };
                    texts::law_starts_with(path, "id:"@);
                    texts::law_starts_with(path, "https://"@);
                    texts::law_starts_with(path, "http://"@);
                    texts::law_starts_with(path, "mailto:"@);
                    lemma_with_span_atoms(
                        b,
                        SpanView::LinkRef { id: org_parser::link_id(path), description },
                    );
                    lemma_with_span_atoms(b, SpanView::ExternalLink { url: path, description });
                    lemma_with_text_atoms(b, raw, markup);
                    lemma_with_text_atoms(b, path, markup);
                }
            } else {
                match org_parser::emphasis_of(kind) {
                    Some((inner, mark)) => {
                        lemma_visited_all_atoms(d, p + 1, end, b, Some(inner), Some(mark));
                    },
                    None => {
                        lemma_visited_all_atoms(d, p + 1, end, b, markup, None);
                    },
                }
            }
        },
    }
}

proof fn lemma_visited_all_atoms(
    d: DocumentView,
    lo: int,
    hi: int,
    b: BuilderView,
    markup: Option<Markup>,
    mark: Option<Seq<char>>,
)
    ensures
        builder_atoms(org_parser::visited_all(d, lo, hi, b, markup, mark)) == builder_atoms(b)
            + range_atoms(d, lo, hi, markup, mark),
    decreases hi - lo, 1int,
{
    if lo < hi {
        org::lemma_end_of(d, lo, hi);
        let end = org::end_of(d, lo, hi);
        let skipped = d.elements[lo].2 is Some && mark == Some(d.elements[lo].1);
        let next = if skipped {
            b
        } else {
            lemma_visited_atoms(d, lo, hi, b, markup);
            org_parser::visited(d, lo, hi, b, markup)
        };
        lemma_visited_all_atoms(d, end, hi, next, markup, mark);
        let own = if skipped {
            Seq::<Atom>::empty()
        } else {
            element_atoms(d, lo, hi, markup)
        };
        let rest = range_atoms(d, end, hi, markup, mark);
        assert(builder_atoms(b) + (own + rest) =~= builder_atoms(b) + own + rest);
        assert(builder_atoms(b) + Seq::<Atom>::empty() =~= builder_atoms(b));
    } else {
        assert(builder_atoms(b) + Seq::<Atom>::empty() =~= builder_atoms(b));
    }
}

/// Whether a text is white space and nothing else.
pub open spec fn is_blank(t: Seq<char>) -> bool {
    forall|i: int| 0 <= i < t.len() ==> text::white_space(#[trigger] t[i])
}

/// Whether spans hold the atoms up to a text at their end that is left out.
pub open spec fn hold_but_for(
    spans: Seq<SpanView>,
    atoms: Seq<Atom>,
    left: Seq<char>,
    markup: Option<Markup>,
) -> bool {
    atoms == all_atoms(spans) + text_atoms(left, markup)
}

/// The spans of inline content hold exactly what the elements hold, in order and
/// with its emphasis, up to white space at the very end.
pub proof fn law_spans_hold_the_content(d: DocumentView, lo: int, hi: int)
    ensures
        exists|left: Seq<char>, markup: Option<Markup>| #[trigger]
            hold_but_for(
                org_parser::spans_in(d, lo, hi),
                range_atoms(d, lo, hi, None, None),
                left,
                markup,
            ) && is_blank(left),
{
    let start = org_parser::empty_builder();
    let b = org_parser::visited_all(d, lo, hi, start, None, None);
    let atoms = range_atoms(d, lo, hi, None, None);
    lemma_visited_all_atoms(d, lo, hi, start, None, None);
    assert(builder_atoms(start) =~= Seq::<Atom>::empty());
    assert(builder_atoms(b) =~= atoms);
    lemma_flushed_atoms(b);
    let f = org_parser::flushed(b).spans;
    assert(all_atoms(f) == atoms);
    let r = org_parser::spans_in(d, lo, hi);
    let kept = org_parser::without_trailing_space(f);
    if kept.len() == 0 {
        lemma_atoms_push(Seq::<SpanView>::empty(), r[0]);
        assert(r =~= Seq::<SpanView>::empty().push(r[0]));
        assert(all_atoms(r) =~= Seq::<Atom>::empty());
        assert(all_atoms(kept) =~= Seq::<Atom>::empty());
    }
    assert(all_atoms(r) == all_atoms(kept));
    if f.len() > 0 && org_parser::own_text(f.last()) is Some {
        let t = org_parser::own_text(f.last())->0;
        let markup = match f.last() {
            SpanView::Marked { markup, .. } => Some(markup),
            _ => None,
        };
        let rest = text::trim_end(t);
        texts::law_trim_one_side(t);
        let k = choose|k: int|
            #![trigger t.take(k)]
            0 <= k <= t.len() && rest == t.take(k) && (k > 0 ==> !text::white_space(t[k - 1]))
                && forall|i: int| k <= i < t.len() ==> text::white_space(#[trigger] t[i]);
        let left = t.skip(k);
        let head = f.drop_last();
        assert(f =~= head.push(f.last()));
        lemma_atoms_push(head, f.last());
        assert(text_atoms(t, markup) =~= text_atoms(rest, markup) + text_atoms(left, markup));
        if rest.len() == 0 {
            assert(kept == head);
            assert(text_atoms(rest, markup) =~= Seq::<Atom>::empty());
            assert(atoms =~= all_atoms(r) + text_atoms(left, markup));
        } else {
            let s = org_parser::with_own_text(f.last(), rest);
            lemma_atoms_push(head, s);
            assert(kept == head.push(s));
            assert(atoms =~= all_atoms(r) + text_atoms(left, markup));
        }
        assert(hold_but_for(r, atoms, left, markup));
        assert(is_blank(left));
    } else {
        let left = Seq::<char>::empty();
        assert(text_atoms(left, None) =~= Seq::<Atom>::empty());
        assert(atoms =~= all_atoms(r) + text_atoms(left, None));
        assert(hold_but_for(r, atoms, left, None));
        assert(is_blank(left));
    }
}

/// When inline content ends, a last text loses the white space at its end, and
/// goes where nothing is left; a link stays. What is left of nothing is one
/// empty text.
pub proof fn law_end_of_content(
    spans: Seq<SpanView>,
    t: Seq<char>,
    link: SpanView,
    markup: Markup,
    now: Option<Markup>,
)
    requires
        link is LinkRef || link is ExternalLink,
    ensures
        ({
            let end = |s: Seq<SpanView>|
                org_parser::finished(
                    BuilderView { spans: s, buf: Seq::<char>::empty(), markup: now },
                );
            let none = if spans.len() == 0 {
                seq![SpanView::Text(Seq::<char>::empty())]
            } else {
                spans
            };
            let rest = text::trim_end(t);
            &&& end(Seq::<SpanView>::empty()) == seq![SpanView::Text(Seq::<char>::empty())]
            &&& end(spans.push(link)) == spans.push(link)
            &&& end(spans.push(SpanView::Text(t))) == (if rest.len() == 0 {
                none
            } else {
                spans.push(SpanView::Text(rest))
            })
            &&& end(spans.push(SpanView::Marked { text: t, markup })) == (if rest.len() == 0 {
                none
            } else {
                spans.push(SpanView::Marked { text: rest, markup })
            })
        }),
{
    assert(spans.push(SpanView::Text(t)).drop_last() =~= spans);
    assert(spans.push(SpanView::Marked { text: t, markup }).drop_last() =~= spans);
}

/// Text of the same emphasis that comes in pieces makes up one span: adding the
/// pieces is adding the whole. A text that has come to its end is one span with
/// its emphasis, each line feed turned into a space.
pub proof fn law_pieces_make_one_span(
    b: BuilderView,
    s: Seq<char>,
    t: Seq<char>,
    markup: Option<Markup>,
)
    ensures
        org_parser::with_text(org_parser::with_text(b, s, markup), t, markup)
            == org_parser::with_text(b, s + t, markup),
        b.buf.len() > 0 ==> ({
            let f = org_parser::flushed(b).spans;
            let x = f.last();
            &&& f.len() == b.spans.len() + 1
            &&& f.drop_last() == b.spans
            &&& b.markup is None ==> x is Text
            &&& b.markup is Some ==> x is Marked && x->markup == b.markup->0
            &&& span_atoms(x) == token_atoms(b.buf, b.markup)
        }),
        b.buf.len() == 0 ==> org_parser::flushed(b).spans == b.spans,
{
    let x = org_parser::with_text(b, s, markup);
    assert(org_parser::with_text(x, t, markup) =~= org_parser::with_text(b, s + t, markup));
    if b.buf.len() > 0 {
        let f = org_parser::flushed(b).spans;
        assert(f.drop_last() =~= b.spans);
        assert(span_atoms(f.last()) =~= token_atoms(b.buf, b.markup));
    }
}

} // verus!
