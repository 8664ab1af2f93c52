//! The blocks of a node stand as their elements stand in the document.

use crate::laws::reading;
use crate::laws::texts;
use crate::org;
use crate::org::DocumentView;
use crate::org_parser;
use crate::org_parser::{OrgBlockView, SpanView};
use crate::path::PathView;
use crate::text;
use vstd::prelude::*;

verus! {

// ---------------------------------------------------------------------
// The tree
// ---------------------------------------------------------------------

proof fn lemma_scan(d: DocumentView, depth: usize, q: int, hi: int)
    requires
        q <= hi,
    ensures
        ({
            let e = org::scan_end(d, depth, q, hi);
            &&& q <= e <= hi
            &&& forall|j: int| q <= j < e ==> (#[trigger] d.elements[j]).0 > depth
            &&& e < hi ==> d.elements[e].0 <= depth
        }),
    decreases hi - q,
{
    if q < hi && d.elements[q].0 > depth {
        lemma_scan(d, depth, q + 1, hi);
    }
}

/// The subtree of an element is what follows it and stands deeper, without a
/// gap.
pub proof fn law_subtree(d: DocumentView, p: int, hi: int)
    requires
        p < hi,
    ensures
        ({
            let e = org::end_of(d, p, hi);
            &&& p < e <= hi
            &&& forall|j: int| p < j < e ==> (#[trigger] d.elements[j]).0 > d.elements[p].0
            &&& e < hi ==> d.elements[e].0 <= d.elements[p].0
        }),
{
    lemma_scan(d, d.elements[p].0, p + 1, hi);
}

/// Whether `q` is one of the subtrees that `lo..hi` consists of.
pub open spec fn is_child(d: DocumentView, lo: int, hi: int, q: int) -> bool
    decreases hi - lo,
{
    if lo >= hi {
        false
    } else {
        proof {
            org::lemma_end_of(d, lo, hi);
        }
        q == lo || is_child(d, org::end_of(d, lo, hi), hi, q)
    }
}

proof fn lemma_child_range(d: DocumentView, lo: int, hi: int, q: int)
    requires
        is_child(d, lo, hi, q),
    ensures
        lo <= q < hi,
    decreases hi - lo,
{
    org::lemma_end_of(d, lo, hi);
    if q != lo {
        lemma_child_range(d, org::end_of(d, lo, hi), hi, q);
    }
}

/// Whether the element at `p` is a node of the kind.
pub open spec fn is_of_kind(d: DocumentView, p: int, kind: Seq<char>) -> bool {
    d.elements[p].1 == kind && d.elements[p].2 is None
}

/// The first child of a kind is one, and no child before it is.
pub proof fn law_first_child(d: DocumentView, lo: int, hi: int, kind: Seq<char>)
    ensures
        match org::first_child(d, lo, hi, kind) {
            Some(c) => is_child(d, lo, hi, c) && is_of_kind(d, c, kind) && forall|q: int|
                q < c && #[trigger] is_child(d, lo, hi, q) ==> !is_of_kind(d, q, kind),
            None => forall|q: int| #[trigger] is_child(d, lo, hi, q) ==> !is_of_kind(d, q, kind),
        },
    decreases hi - lo,
{
    if lo < hi {
        org::lemma_end_of(d, lo, hi);
        let end = org::end_of(d, lo, hi);
        law_first_child(d, end, hi, kind);
        assert forall|q: int| #[trigger] is_child(d, lo, hi, q) <==> q == lo || is_child(
            d,
            end,
            hi,
            q,
        ) by {}
        if org::is_node(d, lo, kind) {
            assert forall|q: int| q < lo && #[trigger] is_child(d, lo, hi, q) implies !is_of_kind(
                d,
                q,
                kind,
            ) by {
                lemma_child_range(d, lo, hi, q);
            }
        }
    }
}

proof fn lemma_children_apart(d: DocumentView, lo: int, hi: int, a: Seq<char>, b: Seq<char>)
    requires
        org::first_child(d, lo, hi, a) is Some,
        org::first_child(d, lo, hi, b) is Some,
        org::first_child(d, lo, hi, a)->0 < org::first_child(d, lo, hi, b)->0,
    ensures
        org::end_of(d, org::first_child(d, lo, hi, a)->0, hi) <= org::first_child(d, lo, hi, b)->0,
    decreases hi - lo,
{
    if lo < hi {
        org::lemma_end_of(d, lo, hi);
        let end = org::end_of(d, lo, hi);
        org::lemma_first_child(d, end, hi, a);
        org::lemma_first_child(d, end, hi, b);
        if !org::is_node(d, lo, a) && !org::is_node(d, lo, b) {
            lemma_children_apart(d, end, hi, a, b);
        }
    }
}

// ---------------------------------------------------------------------
// What an element gives
// ---------------------------------------------------------------------

/// Whether spans are white space and nothing else.
pub open spec fn nothing_but_space(spans: Seq<SpanView>) -> bool {
    forall|i: int|
        0 <= i < spans.len() ==> match #[trigger] spans[i] {
            SpanView::Text(t) => reading::is_blank(t),
            SpanView::Marked { text, .. } => reading::is_blank(text),
            _ => false,
        }
}

proof fn lemma_nothing_but_space(spans: Seq<SpanView>)
    ensures
        org_parser::all_blank(spans) <==> nothing_but_space(spans),
{
    assert forall|t: Seq<char>| #[trigger] text::trim(t).len() == 0 <==> reading::is_blank(t) by {
        texts::law_trim(t);
        let (lo, hi) = choose|lo: int, hi: int| #[trigger]
            texts::is_core(t, lo, hi) && text::trim(t) == t.subrange(lo, hi);
        if lo == hi {
            assert forall|i: int| 0 <= i < t.len() implies text::white_space(
                #[trigger] t[i],
            ) by {}
        } else {
            assert(!text::white_space(t[lo]));
        }
    }
    if org_parser::all_blank(spans) {
        assert forall|i: int| 0 <= i < spans.len() implies match #[trigger] spans[i] {
            SpanView::Text(t) => reading::is_blank(t),
            SpanView::Marked { text, .. } => reading::is_blank(text),
            _ => false,
        } by {
            assert(org_parser::is_blank_span(spans[i]));
        }
    }
    if nothing_but_space(spans) {
        assert forall|i: int| 0 <= i < spans.len() implies org_parser::is_blank_span(
            #[trigger] spans[i],
        ) by {
            let s = spans[i];
        }
    }
}

/// Whether a kind is a drawer, a keyword or a comment, which are no text.
pub open spec fn is_no_text(kind: Seq<char>) -> bool {
    ||| kind == "DRAWER"@
    ||| kind == "PROPERTY_DRAWER"@
    ||| kind == "KEYWORD"@
    ||| kind == "AFFILIATED_KEYWORD"@
    ||| kind == "BABEL_CALL"@
    ||| kind == "COMMENT"@
    ||| kind == "COMMENT_BLOCK"@
}

/// Whether the element at `p` is a source block of which the source is known.
pub open spec fn is_source(d: DocumentView, p: int) -> bool {
    is_of_kind(d, p, "SOURCE_BLOCK"@) && p < d.sources.len() && d.sources[p] is Some
}

/// The inline content of a child of some kind; an empty text without one.
pub open spec fn content_of_child(d: DocumentView, lo: int, hi: int, kind: Seq<char>) -> Seq<
    SpanView,
> {
    match org::first_child(d, lo, hi, kind) {
        Some(c) => org_parser::spans_in(d, c + 1, org::end_of(d, c, hi)),
        None => seq![SpanView::Text(Seq::<char>::empty())],
    }
}

/// Whether a block is what the element at `p` gives, which is no list: quotes
/// their content, source blocks their source without the line feeds at its end,
/// and everything else a paragraph of its inline content.
pub open spec fn given_by(d: DocumentView, p: int, hi: int, b: OrgBlockView) -> bool {
    let end = org::end_of(d, p, hi);
    if is_of_kind(d, p, "QUOTE_BLOCK"@) {
        b == (OrgBlockView::Quote { spans: content_of_child(d, p + 1, end, "BLOCK_CONTENT"@) })
    } else if is_source(d, p) {
        b == (OrgBlockView::CodeBlock {
            language: (d.sources[p]->0).0,
            content: text::trim_end_newlines((d.sources[p]->0).1),
        })
    } else {
        b == (OrgBlockView::Paragraph { spans: org_parser::spans_in(d, p + 1, end) })
    }
}

/// Whether the element at `p`, which is no list, gives a block: it is a node,
/// none that is no text, and holds more than white space unless it is a quote or
/// a source block.
pub open spec fn gives_a_block(d: DocumentView, p: int, hi: int) -> bool {
    ||| is_of_kind(d, p, "QUOTE_BLOCK"@)
    ||| is_source(d, p)
    ||| d.elements[p].2 is None && !is_no_text(d.elements[p].1) && !nothing_but_space(
        org_parser::spans_in(d, p + 1, org::end_of(d, p, hi)),
    )
}

proof fn lemma_kinds()
    ensures
        "PARAGRAPH"@ != "QUOTE_BLOCK"@,
        "PARAGRAPH"@ != "SOURCE_BLOCK"@,
        "QUOTE_BLOCK"@ != "SOURCE_BLOCK"@,
        "LIST"@ != "QUOTE_BLOCK"@,
        "LIST"@ != "SOURCE_BLOCK"@,
        "LIST"@ != "PARAGRAPH"@,
        !is_no_text("PARAGRAPH"@),
{
    reveal_strlit("PARAGRAPH");
    reveal_strlit("QUOTE_BLOCK");
    reveal_strlit("SOURCE_BLOCK");
    reveal_strlit("LIST");
    reveal_strlit("DRAWER");
    reveal_strlit("PROPERTY_DRAWER");
    reveal_strlit("KEYWORD");
    reveal_strlit("AFFILIATED_KEYWORD");
    reveal_strlit("BABEL_CALL");
    reveal_strlit("COMMENT");
    reveal_strlit("COMMENT_BLOCK");
    assert("PARAGRAPH"@.len() == 9);
    assert("QUOTE_BLOCK"@.len() == 11);
    assert("SOURCE_BLOCK"@.len() == 12);
    assert("LIST"@.len() == 4);
    assert("DRAWER"@.len() == 6);
    assert("PROPERTY_DRAWER"@.len() == 15);
    assert("KEYWORD"@.len() == 7);
    assert("AFFILIATED_KEYWORD"@.len() == 18);
    assert("BABEL_CALL"@.len() == 10);
    assert("COMMENT"@.len() == 7);
    assert("COMMENT_BLOCK"@.len() == 13);
}

/// A child of a section, or of a list item, that is no list gives one block or
/// none, and exactly where it has something to give.
pub proof fn law_child_gives(d: DocumentView, p: int, hi: int)
    requires
        p < hi,
        !is_of_kind(d, p, "LIST"@),
    ensures
        gives_a_block(d, p, hi) ==> org_parser::child_blocks(d, p, hi).len() == 1 && given_by(
            d,
            p,
            hi,
            org_parser::child_blocks(d, p, hi)[0],
        ),
        !gives_a_block(d, p, hi) ==> org_parser::child_blocks(d, p, hi).len() == 0,
{
    lemma_kinds();
    lemma_nothing_but_space(org_parser::spans_in(d, p + 1, org::end_of(d, p, hi)));
}

/// A list gives what its items give.
pub proof fn law_list_gives(d: DocumentView, p: int, hi: int)
    requires
        p < hi,
        is_of_kind(d, p, "LIST"@),
    ensures
        org_parser::child_blocks(d, p, hi) == org_parser::list_blocks(
            d,
            p + 1,
            org::end_of(d, p, hi),
        ),
{
    lemma_kinds();
}

/// Whether the item at `p` is numbered: its first bullet starts with a digit,
/// white space aside.
pub open spec fn is_numbered(d: DocumentView, lo: int, hi: int) -> bool {
    exists|q: int|
        #![trigger is_child(d, lo, hi, q)]
        {
            &&& is_child(d, lo, hi, q)
            &&& is_bullet(d, q)
            &&& forall|r: int| r < q && #[trigger] is_child(d, lo, hi, r) ==> !is_bullet(d, r)
            &&& starts_with_digit(text::trim_start(d.elements[q].2->0))
        }
}

/// Whether the element at `q` is the token of a bullet.
pub open spec fn is_bullet(d: DocumentView, q: int) -> bool {
    d.elements[q].2 is Some && d.elements[q].1 == "LIST_ITEM_BULLET"@
}

/// Whether a text starts with a decimal digit.
pub open spec fn starts_with_digit(t: Seq<char>) -> bool {
    t.len() > 0 && '0' <= t[0] <= '9'
}

/// An item counts as numbered exactly if its bullet is a number.
pub proof fn law_numbered_items(d: DocumentView, lo: int, hi: int)
    ensures
        org_parser::is_ordered(d, lo, hi) <==> is_numbered(d, lo, hi),
    decreases hi - lo,
{
    if lo < hi {
        org::lemma_end_of(d, lo, hi);
        let end = org::end_of(d, lo, hi);
        law_numbered_items(d, end, hi);
        assert forall|q: int| #[trigger] is_child(d, end, hi, q) implies q >= end by {
            lemma_child_range(d, end, hi, q);
        }
        assert(is_child(d, lo, hi, lo));
        assert forall|q: int| #[trigger] is_child(d, lo, hi, q) <==> q == lo || is_child(
            d,
            end,
            hi,
            q,
        ) by {}
        if is_bullet(d, lo) {
            if is_numbered(d, lo, hi) {
                let q = choose|q: int|
                    #![trigger is_child(d, lo, hi, q)]
                    is_child(d, lo, hi, q) && is_bullet(d, q) && (forall|r: int|
                        r < q && #[trigger] is_child(d, lo, hi, r) ==> !is_bullet(d, r))
                        && starts_with_digit(text::trim_start(d.elements[q].2->0));
                lemma_child_range(d, lo, hi, q);
            }
            if org_parser::is_ordered(d, lo, hi) {
                assert forall|r: int| r < lo && #[trigger] is_child(d, lo, hi, r) implies !is_bullet(
                    d,
                    r,
                ) by {
                    lemma_child_range(d, lo, hi, r);
                }
            }
        } else {
            if is_numbered(d, lo, hi) {
                let q = choose|q: int|
                    #![trigger is_child(d, lo, hi, q)]
                    is_child(d, lo, hi, q) && is_bullet(d, q) && (forall|r: int|
                        r < q && #[trigger] is_child(d, lo, hi, r) ==> !is_bullet(d, r))
                        && starts_with_digit(text::trim_start(d.elements[q].2->0));
                assert(is_child(d, end, hi, q));
                assert forall|r: int| r < q && #[trigger] is_child(d, end, hi, r) implies !is_bullet(
                    d,
                    r,
                ) by {
                    assert(is_child(d, lo, hi, r));
                }
            }
            if is_numbered(d, end, hi) {
                let q = choose|q: int|
                    #![trigger is_child(d, end, hi, q)]
                    is_child(d, end, hi, q) && is_bullet(d, q) && (forall|r: int|
                        r < q && #[trigger] is_child(d, end, hi, r) ==> !is_bullet(d, r))
                        && starts_with_digit(text::trim_start(d.elements[q].2->0));
                assert(is_child(d, lo, hi, q));
                assert forall|r: int| r < q && #[trigger] is_child(d, lo, hi, r) implies !is_bullet(
                    d,
                    r,
                ) by {
                    if r != lo {
                        assert(is_child(d, end, hi, r));
                    }
                }
            }
        }
    }
}

// ---------------------------------------------------------------------
// Order
// ---------------------------------------------------------------------

/// Whether a block is what the list item at `p` gives itself: its first
/// paragraph, as a numbered item or not.
pub open spec fn item_of(d: DocumentView, p: int, hi: int, b: OrgBlockView) -> bool {
    let end = org::end_of(d, p, hi);
    &&& is_of_kind(d, p, "LIST_ITEM"@)
    &&& org::first_child(d, p + 1, end, "LIST_ITEM_CONTENT"@) matches Some(c)
    &&& org::first_child(d, c + 1, org::end_of(d, c, end), "PARAGRAPH"@) is Some
    &&& {
        let spans = content_of_child(d, c + 1, org::end_of(d, c, end), "PARAGRAPH"@);
        b == (if is_numbered(d, p + 1, end) {
            OrgBlockView::NumberedItem { spans }
        } else {
            OrgBlockView::BulletItem { spans }
        })
    }
}

/// Whether a block is the heading of the headline at `p`: as many stars as it
/// has, at most 255, and what its title holds.
pub open spec fn heading_of(d: DocumentView, p: int, hi: int, b: OrgBlockView) -> bool {
    let stars: int = if p < d.levels.len() && d.levels[p] is Some {
        d.levels[p]->0 as int
    } else {
        0
    };
    &&& is_of_kind(d, p, "HEADLINE"@)
    &&& b matches OrgBlockView::Heading { level, spans }
    &&& level as int == (if stars <= 255 {
        stars
    } else {
        255
    })
    &&& spans == content_of_child(d, p + 1, org::end_of(d, p, hi), "HEADLINE_TITLE"@)
}

/// Whether a block comes from the element at `p`, whose subtree ends at `hi` at
/// the latest.
pub open spec fn comes_from(d: DocumentView, p: int, hi: int, b: OrgBlockView) -> bool {
    ||| heading_of(d, p, hi, b)
    ||| item_of(d, p, hi, b)
    ||| !is_of_kind(d, p, "LIST"@) && gives_a_block(d, p, hi) && given_by(d, p, hi, b)
}

/// Whether `src[k]` is the element that the `k`th block comes from, all of them
/// in `lo..hi`, and each behind the one before.
pub open spec fn told_in_order(
    d: DocumentView,
    src: Seq<(int, int)>,
    blocks: Seq<OrgBlockView>,
    lo: int,
    hi: int,
) -> bool {
    &&& src.len() == blocks.len()
    &&& forall|k: int|
        0 <= k < src.len() ==> lo <= (#[trigger] src[k]).0 < hi && comes_from(
            d,
            src[k].0,
            src[k].1,
            blocks[k],
        )
    &&& forall|j: int, k: int|
        #![trigger src[j], src[k]]
        0 <= j < k < src.len() ==> src[j].0 < src[k].0
}

proof fn lemma_told_concat(
    d: DocumentView,
    x: Seq<(int, int)>,
    a: Seq<OrgBlockView>,
    y: Seq<(int, int)>,
    b: Seq<OrgBlockView>,
    lo: int,
    m: int,
    n: int,
    hi: int,
)
    requires
        told_in_order(d, x, a, lo, m),
        told_in_order(d, y, b, n, hi),
        lo <= m <= n <= hi || (y.len() == 0 && m <= hi) || (x.len() == 0 && lo <= n),
    ensures
        told_in_order(d, x + y, a + b, lo, hi),
{
    let z = x + y;
    let c = a + b;
    assert forall|k: int| 0 <= k < z.len() implies lo <= (#[trigger] z[k]).0 < hi && comes_from(
        d,
        z[k].0,
        z[k].1,
        c[k],
    ) by {
        if k < x.len() {
            assert(z[k] == x[k]);
            assert(c[k] == a[k]);
            if y.len() > 0 {
                assert(n <= y[0].0 < hi);
            }
        } else {
            assert(z[k] == y[k - x.len()]);
            assert(c[k] == b[k - x.len()]);
            if x.len() > 0 {
                assert(lo <= x[0].0 < m);
            }
        }
    }
    assert forall|j: int, k: int|
        #![trigger z[j], z[k]]
        0 <= j < k < z.len() implies z[j].0 < z[k].0 by {
        if k < x.len() {
            assert(x[j].0 < x[k].0);
        } else if j >= x.len() {
            assert(y[j - x.len()].0 < y[k - x.len()].0);
        } else {
            assert(x[j].0 < m);
            assert(n <= y[k - x.len()].0);
        }
    }
}

spec fn list_sources(d: DocumentView, lo: int, hi: int) -> Seq<(int, int)>
    decreases hi - lo, 0int,
{
    if lo >= hi {
        Seq::<(int, int)>::empty()
    } else {
        proof {
            org::lemma_end_of(d, lo, hi);
            org::lemma_first_child(d, lo + 1, org::end_of(d, lo, hi), "LIST_ITEM_CONTENT"@);
        }
        let end = org::end_of(d, lo, hi);
        let rest = list_sources(d, end, hi);
        if org::is_node(d, lo, "LIST_ITEM"@) {
            match org::first_child(d, lo + 1, end, "LIST_ITEM_CONTENT"@) {
                Some(c) => {
                    proof {
                        org::lemma_end_of(d, c, end);
                    }
                    let ce = org::end_of(d, c, end);
                    let first = org::first_child(d, c + 1, ce, "PARAGRAPH"@);
                    let own = if first is Some {
                        seq![(lo, hi)]
                    } else {
                        Seq::<(int, int)>::empty()
                    };
                    own + content_sources(d, c + 1, ce, first) + rest
                },
                None => rest,
            }
        } else {
            rest
        }
    }
}

spec fn child_sources(d: DocumentView, p: int, hi: int) -> Seq<(int, int)>
    decreases hi - p, 0int,
{
    if p >= hi {
        Seq::<(int, int)>::empty()
    } else if org::is_node(d, p, "LIST"@) {
        proof {
            org::lemma_end_of(d, p, hi);
        }
        list_sources(d, p + 1, org::end_of(d, p, hi))
    } else if gives_a_block(d, p, hi) {
        seq![(p, hi)]
    } else {
        Seq::<(int, int)>::empty()
    }
}

spec fn content_sources(d: DocumentView, lo: int, hi: int, skip: Option<int>) -> Seq<(int, int)>
    decreases hi - lo, 1int,
{
    if lo >= hi {
        Seq::<(int, int)>::empty()
    } else {
        proof {
            org::lemma_end_of(d, lo, hi);
        }
        let rest = content_sources(d, org::end_of(d, lo, hi), hi, skip);
        if skip == Some(lo) {
            rest
        } else {
            child_sources(d, lo, hi) + rest
        }
    }
}

proof fn lemma_list_told(d: DocumentView, lo: int, hi: int)
    requires
        lo <= hi,
    ensures
        told_in_order(d, list_sources(d, lo, hi), org_parser::list_blocks(d, lo, hi), lo, hi),
    decreases hi - lo, 0int,
{
    if lo < hi {
        org::lemma_end_of(d, lo, hi);
        let end = org::end_of(d, lo, hi);
        lemma_list_told(d, end, hi);
        let rest = list_sources(d, end, hi);
        let after = org_parser::list_blocks(d, end, hi);
        let nil = Seq::<(int, int)>::empty();
        let none = Seq::<OrgBlockView>::empty();
        assert(nil + rest =~= rest);
        assert(none + after =~= after);
        lemma_told_concat(d, nil, none, rest, after, lo, lo, end, hi);
        if org::is_node(d, lo, "LIST_ITEM"@) {
            org::lemma_first_child(d, lo + 1, end, "LIST_ITEM_CONTENT"@);
            match org::first_child(d, lo + 1, end, "LIST_ITEM_CONTENT"@) {
                Some(c) => {
                    org::lemma_end_of(d, c, end);
                    let ce = org::end_of(d, c, end);
                    let first = org::first_child(d, c + 1, ce, "PARAGRAPH"@);
                    let ordered = org_parser::is_ordered(d, lo + 1, end);
                    law_numbered_items(d, lo + 1, end);
                    let own = if first is Some {
                        seq![(lo, hi)]
                    } else {
                        nil
                    };
                    let item = org_parser::item_paragraph(d, c + 1, ce, ordered);
                    assert(told_in_order(d, own, item, lo, lo + 1)) by {
                        if first is Some {
                            assert(item_of(d, lo, hi, item[0]));
                        }
                    }
                    lemma_content_told(d, c + 1, ce, first);
                    let more = content_sources(d, c + 1, ce, first);
                    let blocks = org_parser::content_blocks(d, c + 1, ce, first);
                    lemma_told_concat(d, own, item, more, blocks, lo, lo + 1, c + 1, ce);
                    lemma_told_concat(d, own + more, item + blocks, rest, after, lo, ce, end, hi);
                },
                None => {},
            }
        }
    }
}

proof fn lemma_child_told(d: DocumentView, p: int, hi: int)
    requires
        p < hi,
    ensures
        told_in_order(
            d,
            child_sources(d, p, hi),
            org_parser::child_blocks(d, p, hi),
            p,
            org::end_of(d, p, hi),
        ),
    decreases hi - p, 0int,
{
    org::lemma_end_of(d, p, hi);
    let end = org::end_of(d, p, hi);
    if org::is_node(d, p, "LIST"@) {
        law_list_gives(d, p, hi);
        lemma_list_told(d, p + 1, end);
        let nil = Seq::<(int, int)>::empty();
        let none = Seq::<OrgBlockView>::empty();
        let src = list_sources(d, p + 1, end);
        let blocks = org_parser::list_blocks(d, p + 1, end);
        assert(nil + src =~= src);
        assert(none + blocks =~= blocks);
        lemma_told_concat(d, nil, none, src, blocks, p, p, p + 1, end);
    } else {
        law_child_gives(d, p, hi);
    }
}

proof fn lemma_content_told(d: DocumentView, lo: int, hi: int, skip: Option<int>)
    requires
        lo <= hi,
    ensures
        told_in_order(
            d,
            content_sources(d, lo, hi, skip),
            org_parser::content_blocks(d, lo, hi, skip),
            lo,
            hi,
        ),
    decreases hi - lo, 1int,
{
    if lo < hi {
        org::lemma_end_of(d, lo, hi);
        let end = org::end_of(d, lo, hi);
        lemma_content_told(d, end, hi, skip);
        let rest = content_sources(d, end, hi, skip);
        let after = org_parser::content_blocks(d, end, hi, skip);
        if skip == Some(lo) {
            let nil = Seq::<(int, int)>::empty();
            let none = Seq::<OrgBlockView>::empty();
            assert(nil + rest =~= rest);
            assert(none + after =~= after);
            lemma_told_concat(d, nil, none, rest, after, lo, lo, end, hi);
        } else {
            lemma_child_told(d, lo, hi);
            lemma_told_concat(
                d,
                child_sources(d, lo, hi),
                org_parser::child_blocks(d, lo, hi),
                rest,
                after,
                lo,
                end,
                end,
                hi,
            );
        }
    }
}

/// Whether the section among the subtrees in `lo..hi` stands before the
/// headlines.
pub open spec fn section_leads(d: DocumentView, lo: int, hi: int) -> bool {
    match (
        org::first_child(d, lo, hi, "SECTION"@),
        org::first_child(d, lo, hi, "HEADLINE"@),
    ) {
        (Some(s), Some(h)) => s < h,
        _ => true,
    }
}

/// Whether in each headline among the subtrees in `lo..hi`, and below them, the
/// section stands before the headlines.
pub open spec fn sections_lead(d: DocumentView, lo: int, hi: int) -> bool
    decreases hi - lo,
{
    lo < hi ==> {
        proof {
            org::lemma_end_of(d, lo, hi);
        }
        let end = org::end_of(d, lo, hi);
        &&& is_of_kind(d, lo, "HEADLINE"@) ==> section_leads(d, lo + 1, end) && sections_lead(
            d,
            lo + 1,
            end,
        )
        &&& sections_lead(d, end, hi)
    }
}

spec fn section_sources(d: DocumentView, lo: int, hi: int) -> Seq<(int, int)> {
    match org::first_child(d, lo, hi, "SECTION"@) {
        Some(s) => content_sources(d, s + 1, org::end_of(d, s, hi), None),
        None => Seq::<(int, int)>::empty(),
    }
}

spec fn headline_sources(d: DocumentView, lo: int, hi: int) -> Seq<(int, int)>
    decreases hi - lo,
{
    if lo >= hi {
        Seq::<(int, int)>::empty()
    } else {
        proof {
            org::lemma_end_of(d, lo, hi);
        }
        let end = org::end_of(d, lo, hi);
        let rest = headline_sources(d, end, hi);
        if org::is_node(d, lo, "HEADLINE"@) {
            seq![(lo, hi)] + section_sources(d, lo + 1, end) + headline_sources(d, lo + 1, end)
                + rest
        } else {
            rest
        }
    }
}

/// The end of the section among the subtrees in `lo..hi`, or their start.
spec fn section_end(d: DocumentView, lo: int, hi: int) -> int {
    match org::first_child(d, lo, hi, "SECTION"@) {
        Some(s) => org::end_of(d, s, hi),
        None => lo,
    }
}

/// The first headline among the subtrees in `lo..hi`, or their end.
spec fn headline_start(d: DocumentView, lo: int, hi: int) -> int {
    match org::first_child(d, lo, hi, "HEADLINE"@) {
        Some(h) => h,
        None => hi,
    }
}

proof fn lemma_section_told(d: DocumentView, lo: int, hi: int)
    requires
        lo <= hi,
        section_leads(d, lo, hi),
    ensures
        told_in_order(
            d,
            section_sources(d, lo, hi),
            org_parser::first_section(d, lo, hi),
            lo,
            section_end(d, lo, hi),
        ),
        lo <= section_end(d, lo, hi) <= headline_start(d, lo, hi) <= hi,
{
    org::lemma_first_child(d, lo, hi, "SECTION"@);
    org::lemma_first_child(d, lo, hi, "HEADLINE"@);
    match org::first_child(d, lo, hi, "SECTION"@) {
        Some(s) => {
            org::lemma_end_of(d, s, hi);
            let e = org::end_of(d, s, hi);
            lemma_content_told(d, s + 1, e, None);
            let src = content_sources(d, s + 1, e, None);
            let blocks = org_parser::content_blocks(d, s + 1, e, None);
            let nil = Seq::<(int, int)>::empty();
            let none = Seq::<OrgBlockView>::empty();
            assert(nil + src =~= src);
            assert(none + blocks =~= blocks);
            lemma_told_concat(d, nil, none, src, blocks, lo, lo, s + 1, e);
            if org::first_child(d, lo, hi, "HEADLINE"@) is Some {
                lemma_children_apart(d, lo, hi, "SECTION"@, "HEADLINE"@);
            }
        },
        None => {},
    }
}

proof fn lemma_headlines_told(d: DocumentView, lo: int, hi: int)
    requires
        lo <= hi,
        sections_lead(d, lo, hi),
    ensures
        told_in_order(
            d,
            headline_sources(d, lo, hi),
            org_parser::headline_blocks(d, lo, hi),
            headline_start(d, lo, hi),
            hi,
        ),
    decreases hi - lo,
{
    if lo < hi {
        org::lemma_end_of(d, lo, hi);
        let end = org::end_of(d, lo, hi);
        lemma_headlines_told(d, end, hi);
        let rest = headline_sources(d, end, hi);
        let after = org_parser::headline_blocks(d, end, hi);
        org::lemma_first_child(d, end, hi, "HEADLINE"@);
        let next = headline_start(d, end, hi);
        if org::is_node(d, lo, "HEADLINE"@) {
            let heading = org_parser::heading_block(d, lo, lo + 1, end);
            lemma_empty_finish();
            assert(heading_of(d, lo, hi, heading));
            assert(told_in_order(d, seq![(lo, hi)], seq![heading], lo, lo + 1));
            lemma_section_told(d, lo + 1, end);
            lemma_headlines_told(d, lo + 1, end);
            let se = section_end(d, lo + 1, end);
            let hs = headline_start(d, lo + 1, end);
            let s = section_sources(d, lo + 1, end);
            let sb = org_parser::first_section(d, lo + 1, end);
            let h = headline_sources(d, lo + 1, end);
            let hb = org_parser::headline_blocks(d, lo + 1, end);
            lemma_told_concat(d, seq![(lo, hi)], seq![heading], s, sb, lo, lo + 1, lo + 1, se);
            lemma_told_concat(d, seq![(lo, hi)] + s, seq![heading] + sb, h, hb, lo, se, hs, end);
            lemma_told_concat(
                d,
                seq![(lo, hi)] + s + h,
                seq![heading] + sb + hb,
                rest,
                after,
                lo,
                end,
                next,
                hi,
            );
        }
    }
}

proof fn lemma_empty_finish()
    ensures
        org_parser::finished(org_parser::empty_builder()) == seq![
            SpanView::Text(Seq::<char>::empty()),
        ],
{
}

/// Whether the document is laid out as Org documents are: text before the
/// headlines below it, at every level.
pub open spec fn text_comes_first(d: DocumentView) -> bool {
    let n = d.elements.len() as int;
    n > 0 ==> section_leads(d, 1, org::end_of(d, 0, n)) && sections_lead(
        d,
        1,
        org::end_of(d, 0, n),
    )
}

/// The blocks of a node stand as their elements stand in the document: each comes
/// from an element of its own, and an element that stands further on gives a
/// block that stands further on.
pub proof fn law_document_order(p: PathView, d: DocumentView)
    requires
        org_parser::node_of(p, d) is Some,
        text_comes_first(d),
    ensures
        exists|src: Seq<(int, int)>| #[trigger]
            told_in_order(
                d,
                src,
                (org_parser::node_of(p, d)->0).blocks,
                0,
                d.elements.len() as int,
            ),
{
    let n = d.elements.len() as int;
    if n > 0 {
        org::lemma_end_of(d, 0, n);
        let end = org::end_of(d, 0, n);
        lemma_section_told(d, 1, end);
        lemma_headlines_told(d, 1, end);
        let s = section_sources(d, 1, end);
        let h = headline_sources(d, 1, end);
        let sb = org_parser::first_section(d, 1, end);
        let hb = org_parser::headline_blocks(d, 1, end);
        let se = section_end(d, 1, end);
        let hs = headline_start(d, 1, end);
        lemma_told_concat(d, s, sb, h, hb, 1, se, hs, end);
        let src = s + h;
        let blocks = sb + hb;
        assert(blocks == (org_parser::node_of(p, d)->0).blocks);
        assert(told_in_order(d, src, blocks, 0, n)) by {
            assert forall|k: int| 0 <= k < src.len() implies 0 <= (#[trigger] src[k]).0 < n
                && comes_from(d, src[k].0, src[k].1, blocks[k]) by {}
        }
    } else {
        let none = Seq::<OrgBlockView>::empty();
        assert(none == (org_parser::node_of(p, d)->0).blocks);
        assert(told_in_order(d, Seq::<(int, int)>::empty(), none, 0, n));
    }
}

// ---------------------------------------------------------------------
// Headlines and their sections
// ---------------------------------------------------------------------

/// Whether the element at `q`, whose subtree ends at `b` at the latest, is a
/// headline among the subtrees in `lo..hi`, or below one.
pub open spec fn has_headline(d: DocumentView, lo: int, hi: int, q: int, b: int) -> bool
    decreases hi - lo,
{
    if lo >= hi {
        false
    } else {
        proof {
            org::lemma_end_of(d, lo, hi);
        }
        let end = org::end_of(d, lo, hi);
        ||| is_of_kind(d, lo, "HEADLINE"@) && q == lo && b == hi
        ||| is_of_kind(d, lo, "HEADLINE"@) && has_headline(d, lo + 1, end, q, b)
        ||| has_headline(d, end, hi, q, b)
    }
}

/// The blocks of the section of the headline at `q`.
pub open spec fn own_section(d: DocumentView, q: int, b: int) -> Seq<OrgBlockView> {
    let end = org::end_of(d, q, b);
    match org::first_child(d, q + 1, end, "SECTION"@) {
        Some(s) => org_parser::section_blocks(d, s + 1, org::end_of(d, s, end)),
        None => Seq::<OrgBlockView>::empty(),
    }
}

/// Whether the heading of the headline at `q` stands at `k`, the blocks of its
/// own section right behind it, and then, if anything, a heading.
pub open spec fn stands_with_section(
    d: DocumentView,
    q: int,
    b: int,
    blocks: Seq<OrgBlockView>,
    k: int,
) -> bool {
    let m = own_section(d, q, b).len();
    &&& 0 <= k
    &&& k + 1 + m <= blocks.len()
    &&& heading_of(d, q, b, blocks[k])
    &&& blocks.subrange(k + 1, k + 1 + m) == own_section(d, q, b)
    &&& k + 1 + m < blocks.len() ==> blocks[k + 1 + m] is Heading
}

proof fn lemma_headlines_start(d: DocumentView, lo: int, hi: int)
    ensures
        org_parser::headline_blocks(d, lo, hi).len() > 0 ==> org_parser::headline_blocks(
            d,
            lo,
            hi,
        )[0] is Heading,
    decreases hi - lo,
{
    if lo < hi {
        org::lemma_end_of(d, lo, hi);
        lemma_headlines_start(d, org::end_of(d, lo, hi), hi);
    }
}

proof fn lemma_stands_in_concat(
    d: DocumentView,
    q: int,
    b: int,
    x: Seq<OrgBlockView>,
    y: Seq<OrgBlockView>,
    z: Seq<OrgBlockView>,
    k: int,
)
    requires
        stands_with_section(d, q, b, y, k),
        z.len() > 0 ==> z[0] is Heading,
    ensures
        stands_with_section(d, q, b, x + y + z, x.len() + k),
{
    let m = own_section(d, q, b).len();
    let all = x + y + z;
    let j = x.len() + k;
    assert(all.subrange(j + 1, j + 1 + m) =~= y.subrange(k + 1, k + 1 + m));
    assert(all[j] == y[k]);
    if j + 1 + m < all.len() {
        if k + 1 + m < y.len() {
            assert(all[j + 1 + m] == y[k + 1 + m]);
        } else {
            assert(all[j + 1 + m] == z[0]);
        }
    }
}

proof fn lemma_headline_stands(d: DocumentView, lo: int, hi: int, q: int, b: int) -> (k: int)
    requires
        has_headline(d, lo, hi, q, b),
    ensures
        stands_with_section(d, q, b, org_parser::headline_blocks(d, lo, hi), k),
    decreases hi - lo,
{
    org::lemma_end_of(d, lo, hi);
    let end = org::end_of(d, lo, hi);
    let rest = org_parser::headline_blocks(d, end, hi);
    let all = org_parser::headline_blocks(d, lo, hi);
    lemma_headlines_start(d, end, hi);
    lemma_headlines_start(d, lo + 1, end);
    let none = Seq::<OrgBlockView>::empty();
    if org::is_node(d, lo, "HEADLINE"@) {
        let heading = org_parser::heading_block(d, lo, lo + 1, end);
        let section = org_parser::first_section(d, lo + 1, end);
        let below = org_parser::headline_blocks(d, lo + 1, end);
        if q == lo && b == hi {
            lemma_empty_finish();
            assert(heading_of(d, lo, hi, heading));
            assert(section == own_section(d, q, b));
            assert(all[0] == heading);
            let m = section.len() as int;
            assert(all.subrange(1, 1 + m) =~= section);
            if 1 + m < all.len() {
                if below.len() > 0 {
                    assert(all[1 + m] == below[0]);
                } else {
                    assert(all[1 + m] == rest[0]);
                }
            }
            0
        } else if has_headline(d, lo + 1, end, q, b) {
            let k = lemma_headline_stands(d, lo + 1, end, q, b);
            lemma_stands_in_concat(d, q, b, seq![heading] + section, below, rest, k);
            assert(all =~= seq![heading] + section + below + rest);
            (seq![heading] + section).len() + k
        } else {
            let k = lemma_headline_stands(d, end, hi, q, b);
            let before = seq![heading] + section + below;
            lemma_stands_in_concat(d, q, b, before, rest, none, k);
            assert(all =~= before + rest + none);
            before.len() + k
        }
    } else {
        lemma_headline_stands(d, end, hi, q, b)
    }
}

/// Right behind the heading of a headline come the blocks of its own section,
/// and behind them, if anything, the next heading: that of a headline below it,
/// or of one behind it. No headline of the document is left out.
pub proof fn law_section_follows_heading(p: PathView, d: DocumentView, q: int, b: int)
    requires
        org_parser::node_of(p, d) is Some,
        d.elements.len() > 0,
        has_headline(d, 1, org::end_of(d, 0, d.elements.len() as int), q, b),
    ensures
        exists|k: int| #[trigger]
            stands_with_section(d, q, b, (org_parser::node_of(p, d)->0).blocks, k),
{
    let end = org::end_of(d, 0, d.elements.len() as int);
    let blocks = (org_parser::node_of(p, d)->0).blocks;
    let first = org_parser::first_section(d, 1, end);
    let hb = org_parser::headline_blocks(d, 1, end);
    let none = Seq::<OrgBlockView>::empty();
    let k = lemma_headline_stands(d, 1, end, q, b);
    lemma_stands_in_concat(d, q, b, first, hb, none, k);
    assert(blocks =~= first + hb + none);
    assert(stands_with_section(d, q, b, blocks, first.len() + k));
}

/// What stands before the first headline comes first: a node starts with the
/// blocks of the section of its document, and then, if anything, a heading.
pub proof fn law_preamble_comes_first(p: PathView, d: DocumentView)
    requires
        org_parser::node_of(p, d) is Some,
        d.elements.len() > 0,
    ensures
        ({
            let end = org::end_of(d, 0, d.elements.len() as int);
            let blocks = (org_parser::node_of(p, d)->0).blocks;
            let first = match org::first_child(d, 1, end, "SECTION"@) {
                Some(s) => org_parser::section_blocks(d, s + 1, org::end_of(d, s, end)),
                None => Seq::<OrgBlockView>::empty(),
            };
            &&& first.len() <= blocks.len()
            &&& blocks.take(first.len() as int) == first
            &&& first.len() < blocks.len() ==> blocks[first.len() as int] is Heading
        }),
{
    let end = org::end_of(d, 0, d.elements.len() as int);
    let first = org_parser::first_section(d, 1, end);
    let hb = org_parser::headline_blocks(d, 1, end);
    lemma_headlines_start(d, 1, end);
    assert((first + hb).take(first.len() as int) =~= first);
}

/// The blocks of a section, or of what is left of a list item, are those of its
/// children, in their order, but for the one that is left out.
pub proof fn law_content_follows_children(d: DocumentView, lo: int, hi: int, skip: Option<int>)
    requires
        lo < hi,
    ensures
        ({
            let rest = org_parser::content_blocks(d, org::end_of(d, lo, hi), hi, skip);
            let all = org_parser::content_blocks(d, lo, hi, skip);
            let own = org_parser::child_blocks(d, lo, hi);
            if skip == Some(lo) {
                all == rest
            } else {
                &&& all.len() == own.len() + rest.len()
                &&& all.take(own.len() as int) == own
                &&& all.skip(own.len() as int) == rest
            }
        }),
        org_parser::content_blocks(d, hi, hi, skip).len() == 0,
{
    let rest = org_parser::content_blocks(d, org::end_of(d, lo, hi), hi, skip);
    let own = org_parser::child_blocks(d, lo, hi);
    assert((own + rest).take(own.len() as int) =~= own);
    assert((own + rest).skip(own.len() as int) =~= rest);
}

/// A list item gives its first paragraph, as an item, and behind it everything
/// else that it holds; the items behind it follow.
pub proof fn law_list_follows_items(d: DocumentView, lo: int, hi: int)
    requires
        lo < hi,
    ensures
        ({
            let end = org::end_of(d, lo, hi);
            let all = org_parser::list_blocks(d, lo, hi);
            let rest = org_parser::list_blocks(d, end, hi);
            match org::first_child(d, lo + 1, end, "LIST_ITEM_CONTENT"@) {
                Some(c) => if is_of_kind(d, lo, "LIST_ITEM"@) {
                    let ce = org::end_of(d, c, end);
                    let first = org::first_child(d, c + 1, ce, "PARAGRAPH"@);
                    let more = org_parser::content_blocks(d, c + 1, ce, first);
                    let n: int = if first is Some {
                        1
                    } else {
                        0
                    };
                    &&& all.len() == n + more.len() + rest.len()
                    &&& first is Some ==> item_of(d, lo, hi, all[0])
                    &&& all.subrange(n, n + more.len()) == more
                    &&& all.skip(n + more.len()) == rest
                } else {
                    all == rest
                },
                None => all == rest,
            }
        }),
        org_parser::list_blocks(d, hi, hi).len() == 0,
{
    let end = org::end_of(d, lo, hi);
    let all = org_parser::list_blocks(d, lo, hi);
    let rest = org_parser::list_blocks(d, end, hi);
    match org::first_child(d, lo + 1, end, "LIST_ITEM_CONTENT"@) {
        Some(c) => {
            if org::is_node(d, lo, "LIST_ITEM"@) {
                let ce = org::end_of(d, c, end);
                let first = org::first_child(d, c + 1, ce, "PARAGRAPH"@);
                let more = org_parser::content_blocks(d, c + 1, ce, first);
                law_numbered_items(d, lo + 1, end);
                let n: int = if first is Some {
                    1
                } else {
                    0
                };
                assert(all.subrange(n, n + more.len()) =~= more);
                assert(all.skip(n + more.len()) =~= rest);
            }
        },
        None => {},
    }
}

} // verus!
