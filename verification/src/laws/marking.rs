//! Targets in bold, and the warning on what is unreviewed, said of the texts
//! and blocks themselves.

use crate::blocks;
use crate::blocks::{Annotations, BlockView, Color, RichTextView};
use crate::content;
use crate::converter;
use crate::converter::{LinkMapView, LinkTargetView};
use crate::laws::rendering;
use crate::laws::texts;
use crate::org_parser;
use crate::org_parser::{NodeView, OrgBlockView, SpanView};
use crate::transformers;
use crate::transformers::SegmentView;
use vstd::prelude::*;

verus! {

// ---------------------------------------------------------------------
// Targets
// ---------------------------------------------------------------------

/// Whether a text can be that of a target: it is not empty and holds no angle
/// bracket and no line feed.
pub open spec fn can_be_target(t: Seq<char>) -> bool {
    t.len() > 0 && forall|i: int|
        0 <= i < t.len() ==> #[trigger] t[i] != '<' && t[i] != '>' && t[i] != '\n'
}

/// A text in the brackets of a target.
pub open spec fn bracketed(t: Seq<char>) -> Seq<char> {
    seq!['<', '<'] + t + seq!['>', '>']
}

/// A plain segment, where there is any text.
pub open spec fn plain_if_any(t: Seq<char>) -> Seq<SegmentView> {
    if t.len() > 0 {
        seq![SegmentView::Plain(t)]
    } else {
        Seq::<SegmentView>::empty()
    }
}

proof fn lemma_target_end_at(s: Seq<char>, i: int, k: int)
    requires
        0 <= i <= k <= s.len(),
        forall|j: int| i <= j < k ==> #[trigger] s[j] != '<' && s[j] != '>' && s[j] != '\n',
        k < s.len() ==> s[k] == '<' || s[k] == '>' || s[k] == '\n',
    ensures
        transformers::target_end(s, i) == k,
    decreases k - i,
{
    if i < k {
        lemma_target_end_at(s, i + 1, k);
    }
}

proof fn lemma_target_found(s: Seq<char>, t: Seq<char>, i: int)
    requires
        can_be_target(t),
        texts::stands_at(s, bracketed(t), i),
    ensures
        transformers::target_at(s, i),
        transformers::target_end(s, i + 2) == i + 2 + t.len(),
{
    let x = bracketed(t);
    let k = i + 2 + t.len();
    assert(x[0] == s[i + 0]);
    assert(x[1] == s[i + 1]);
    let m = t.len() as int;
    assert(x[2 + m] == s[i + (2 + m)]);
    assert(x[3 + m] == s[i + (3 + m)]);
    assert forall|j: int| i + 2 <= j < k implies #[trigger] s[j] != '<' && s[j] != '>' && s[j]
        != '\n' by {
        assert(x[j - i] == s[i + (j - i)]);
        assert(x[j - i] == t[j - i - 2]);
    }
    lemma_target_end_at(s, i + 2, k);
}

proof fn lemma_no_target_before(s: Seq<char>, i: int, j: int)
    requires
        0 <= i <= j < s.len(),
        transformers::next_target(s, i) matches Some(k) ==> j < k,
    ensures
        !transformers::target_at(s, j),
    decreases s.len() - i,
{
    if i < j {
        lemma_no_target_before(s, i + 1, j);
    }
}

proof fn lemma_next_target_is(s: Seq<char>, i: int, k: int)
    requires
        0 <= i <= k < s.len(),
        transformers::target_at(s, k),
        forall|j: int| i <= j < k ==> #[trigger] s[j] != '<',
    ensures
        transformers::next_target(s, i) == Some(k),
    decreases k - i,
{
    if i < k {
        assert(s[i] != '<');
        lemma_next_target_is(s, i + 1, k);
    }
}

proof fn lemma_no_next_target(s: Seq<char>, i: int)
    requires
        0 <= i,
        forall|j: int| i <= j < s.len() ==> #[trigger] s[j] != '<',
    ensures
        transformers::next_target(s, i) is None,
    decreases s.len() - i,
{
    if i < s.len() {
        assert(s[i] != '<');
        lemma_no_next_target(s, i + 1);
    }
}

/// A target between texts without angle brackets is found, whatever it reads:
/// it becomes a segment of its own, and what is around it stays plain.
pub proof fn law_target_is_found(a: Seq<char>, t: Seq<char>, b: Seq<char>)
    requires
        can_be_target(t),
        forall|i: int| 0 <= i < a.len() ==> #[trigger] a[i] != '<' && a[i] != '>',
        forall|i: int| 0 <= i < b.len() ==> #[trigger] b[i] != '<' && b[i] != '>',
    ensures
        transformers::segments(a + bracketed(t) + b) == plain_if_any(a) + seq![
            SegmentView::Anchor(t),
        ] + plain_if_any(b),
{
    let s = a + bracketed(t) + b;
    let open = a.len() as int;
    let close = open + 2 + t.len();
    assert(texts::stands_at(s, bracketed(t), open)) by {
        assert forall|k: int| 0 <= k < bracketed(t).len() implies #[trigger] bracketed(t)[k]
            == s[open + k] by {}
    }
    lemma_target_found(s, t, open);
    assert forall|j: int| 0 <= j < open implies #[trigger] s[j] != '<' by {
        assert(s[j] == a[j]);
    }
    lemma_next_target_is(s, 0, open);
    assert forall|j: int| close + 2 <= j < s.len() implies #[trigger] s[j] != '<' by {
        assert(s[j] == b[j - close - 2]);
    }
    lemma_no_next_target(s, close + 2);
    assert(s.subrange(open + 2, close) =~= t);
    assert(s.subrange(close + 2, s.len() as int) =~= b);
    assert(s.subrange(0, open) =~= a);
    assert(transformers::segments_from(s, close + 2) =~= plain_if_any(b));
    assert(transformers::segments(s) =~= plain_if_any(a) + seq![SegmentView::Anchor(t)]
        + plain_if_any(b));
}

/// Whether the `k`th segment is as it has to be: a target's text can be that of
/// a target; plain text holds no target, is not empty, and no other plain text
/// comes right behind it.
pub open spec fn segment_sound(parts: Seq<SegmentView>, k: int) -> bool {
    match parts[k] {
        SegmentView::Anchor(t) => can_be_target(t),
        SegmentView::Plain(u) => {
            &&& u.len() > 0
            &&& k + 1 < parts.len() ==> parts[k + 1] is Anchor
            &&& forall|t: Seq<char>, i: int|
                can_be_target(t) ==> !#[trigger] texts::stands_at(u, bracketed(t), i)
        },
    }
}

proof fn lemma_plain_sound(s: Seq<char>, lo: int, hi: int, t: Seq<char>, i: int)
    requires
        0 <= lo < hi <= s.len(),
        transformers::next_target(s, lo) matches Some(k) ==> hi <= k,
        can_be_target(t),
    ensures
        !texts::stands_at(s.subrange(lo, hi), bracketed(t), i),
{
    let u = s.subrange(lo, hi);
    let x = bracketed(t);
    if texts::stands_at(u, x, i) {
        assert(texts::stands_at(s, x, lo + i)) by {
            assert forall|k: int| 0 <= k < x.len() implies #[trigger] x[k] == s[lo + i + k] by {
                assert(x[k] == u[i + k]);
            }
        }
        lemma_target_found(s, t, lo + i);
        lemma_no_target_before(s, lo, lo + i);
    }
}

proof fn lemma_segments_sound(s: Seq<char>, start: int, k: int)
    requires
        0 <= start <= s.len(),
        0 <= k < transformers::segments_from(s, start).len(),
    ensures
        segment_sound(transformers::segments_from(s, start), k),
    decreases s.len() - start,
{
    transformers::lemma_next_target(s, start);
    let all = transformers::segments_from(s, start);
    match transformers::next_target(s, start) {
        None => {
            assert forall|t: Seq<char>, i: int| can_be_target(t) implies !#[trigger] texts::stands_at(
                s.subrange(start, s.len() as int),
                bracketed(t),
                i,
            ) by {
                lemma_plain_sound(s, start, s.len() as int, t, i);
            }
        },
        Some(open) => {
            let close = transformers::target_end(s, open + 2);
            let a = transformers::plain_between(s, start, open);
            let inner = s.subrange(open + 2, close);
            let rest = transformers::segments_from(s, close + 2);
            if k < a.len() {
                assert(all[1] == SegmentView::Anchor(inner));
                assert forall|t: Seq<char>, i: int| can_be_target(t) implies !#[trigger] texts::stands_at(
                    s.subrange(start, open),
                    bracketed(t),
                    i,
                ) by {
                    lemma_plain_sound(s, start, open, t, i);
                }
            } else if k == a.len() {
                lemma_target_end_stops(s, open + 2);
                assert forall|i: int| 0 <= i < inner.len() implies #[trigger] inner[i] != '<'
                    && inner[i] != '>' && inner[i] != '\n' by {
                    assert(inner[i] == s[open + 2 + i]);
                }
            } else {
                let m = k - a.len() - 1;
                assert(all[k] == rest[m]);
                if k + 1 < all.len() {
                    assert(all[k + 1] == rest[m + 1]);
                }
                lemma_segments_sound(s, close + 2, m);
            }
        },
    }
}

proof fn lemma_target_end_stops(s: Seq<char>, i: int)
    requires
        0 <= i <= s.len(),
    ensures
        forall|j: int|
            i <= j < transformers::target_end(s, i) ==> #[trigger] s[j] != '<' && s[j] != '>'
                && s[j] != '\n',
    decreases s.len() - i,
{
    if i < s.len() && !transformers::ends_target(s[i]) {
        lemma_target_end_stops(s, i + 1);
    }
}

/// Splitting finds every target and nothing else: no plain segment holds one,
/// and what it takes for the text of a target is one. Plain text stays in one
/// piece. With [`transformers::law_split_loses_nothing`] this leaves one way to
/// split a text.
pub proof fn law_split_is_complete(s: Seq<char>, k: int)
    requires
        0 <= k < transformers::segments(s).len(),
    ensures
        s.len() > 0 ==> segment_sound(transformers::segments(s), k),
        s.len() == 0 ==> transformers::segments(s) == seq![
            SegmentView::Plain(Seq::<char>::empty()),
        ],
        transformers::all_sources(transformers::segments(s)) == s,
{
    transformers::law_split_loses_nothing(s);
    if s.len() > 0 {
        lemma_segments_sound(s, 0, k);
    } else {
        assert(s =~= Seq::<char>::empty());
    }
}

/// The run of a segment: the same text, in bold for a target and without style
/// otherwise, and without a link.
pub open spec fn run_of_segment(part: SegmentView, run: RichTextView) -> bool {
    match part {
        SegmentView::Plain(t) => run == (RichTextView::Text {
            content: t,
            link: None,
            annotations: rendering::unstyled(),
            plain_text: t,
            href: None,
        }),
        SegmentView::Anchor(t) => run == (RichTextView::Text {
            content: t,
            link: None,
            annotations: rendering::only(true, false, false, false, false),
            plain_text: t,
            href: None,
        }),
    }
}

/// Text without style and link is split into one run for each segment, in
/// order; every other run stays as it is.
pub proof fn law_runs_with_targets(run: RichTextView)
    ensures
        match run {
            RichTextView::Text { content, link: None, annotations, .. } => if annotations
                == rendering::unstyled() {
                &&& transformers::rewritten(run).len() == transformers::segments(content).len()
                &&& forall|k: int|
                    0 <= k < transformers::segments(content).len() ==> run_of_segment(
                        #[trigger] transformers::segments(content)[k],
                        transformers::rewritten(run)[k],
                    )
            } else {
                transformers::rewritten(run) == seq![run]
            },
            _ => transformers::rewritten(run) == seq![run],
        },
{
}

/// The runs of a block are rewritten one after another, in order.
pub proof fn law_rewriting_follows_runs(
    a: Seq<RichTextView>,
    b: Seq<RichTextView>,
    run: RichTextView,
)
    ensures
        transformers::all_rewritten(a + b) == transformers::all_rewritten(a)
            + transformers::all_rewritten(b),
        transformers::all_rewritten(seq![run]) == transformers::rewritten(run),
    decreases b.len(),
{
    assert(seq![run].drop_last() =~= Seq::<RichTextView>::empty());
    assert(transformers::all_rewritten(seq![run].drop_last()) =~= Seq::<RichTextView>::empty());
    assert(transformers::all_rewritten(seq![run]) =~= transformers::rewritten(run));
    if b.len() == 0 {
        assert(a + b =~= a);
        assert(transformers::all_rewritten(b) =~= Seq::<RichTextView>::empty());
    } else {
        law_rewriting_follows_runs(a, b.drop_last(), run);
        assert((a + b).drop_last() =~= a + b.drop_last());
        assert((a + b).last() == b.last());
        assert(transformers::all_rewritten(a + b) =~= transformers::all_rewritten(a)
            + transformers::all_rewritten(b));
    }
}

/// The inline text of a block is its rich text, for every kind but code,
/// dividers and those without; putting other runs there changes nothing else.
pub proof fn law_inline_text(
    runs: Seq<RichTextView>,
    other: Seq<RichTextView>,
    icon: Option<Seq<char>>,
    b: BlockView,
)
    ensures
        b is Code || b is Divider || b is Other ==> blocks::inline_text(b) is None
            && blocks::with_inline_text(b, other) == b,
        ({
            let old = BlockView::Paragraph { rich_text: runs };
            blocks::inline_text(old) == Some(runs) && blocks::with_inline_text(old, other) == (
            BlockView::Paragraph { rich_text: other })
        }),
        ({
            let old = BlockView::Heading1 { rich_text: runs };
            blocks::inline_text(old) == Some(runs) && blocks::with_inline_text(old, other) == (
            BlockView::Heading1 { rich_text: other })
        }),
        ({
            let old = BlockView::Heading2 { rich_text: runs };
            blocks::inline_text(old) == Some(runs) && blocks::with_inline_text(old, other) == (
            BlockView::Heading2 { rich_text: other })
        }),
        ({
            let old = BlockView::Heading3 { rich_text: runs };
            blocks::inline_text(old) == Some(runs) && blocks::with_inline_text(old, other) == (
            BlockView::Heading3 { rich_text: other })
        }),
        ({
            let old = BlockView::Heading4 { rich_text: runs };
            blocks::inline_text(old) == Some(runs) && blocks::with_inline_text(old, other) == (
            BlockView::Heading4 { rich_text: other })
        }),
        ({
            let old = BlockView::BulletedListItem { rich_text: runs };
            blocks::inline_text(old) == Some(runs) && blocks::with_inline_text(old, other) == (
            BlockView::BulletedListItem { rich_text: other })
        }),
        ({
            let old = BlockView::NumberedListItem { rich_text: runs };
            blocks::inline_text(old) == Some(runs) && blocks::with_inline_text(old, other) == (
            BlockView::NumberedListItem { rich_text: other })
        }),
        ({
            let old = BlockView::Quote { rich_text: runs };
            blocks::inline_text(old) == Some(runs) && blocks::with_inline_text(old, other) == (
            BlockView::Quote { rich_text: other })
        }),
        ({
            let old = BlockView::Toggle { rich_text: runs };
            blocks::inline_text(old) == Some(runs) && blocks::with_inline_text(old, other) == (
            BlockView::Toggle { rich_text: other })
        }),
        ({
            let old = BlockView::ToDo { rich_text: runs };
            blocks::inline_text(old) == Some(runs) && blocks::with_inline_text(old, other) == (
            BlockView::ToDo { rich_text: other })
        }),
        ({
            let old = BlockView::Callout { rich_text: runs, icon };
            blocks::inline_text(old) == Some(runs) && blocks::with_inline_text(old, other) == (
            BlockView::Callout { rich_text: other, icon })
        }),
{
}

/// Rendering targets changes the inline text of each block, up to the hundred
/// runs that Notion takes, and nothing else; blocks stay in their places.
pub proof fn law_targets_in_blocks(bs: Seq<BlockView>, i: int)
    requires
        0 <= i < bs.len(),
    ensures
        transformers::all_anchored(bs).len() == bs.len(),
        match blocks::inline_text(bs[i]) {
            None => transformers::all_anchored(bs)[i] == bs[i],
            Some(runs) => {
                let all = transformers::all_rewritten(runs);
                transformers::all_anchored(bs)[i] == blocks::with_inline_text(
                    bs[i],
                    if all.len() <= 100 {
                        all
                    } else {
                        all.take(100)
                    },
                )
            },
        },
{
}

// ---------------------------------------------------------------------
// The warning
// ---------------------------------------------------------------------

/// Whether a block is the warning: a callout with a warning sign that says in
/// red that the content has not been reviewed.
pub open spec fn is_warning(b: BlockView) -> bool {
    let said = "This content hasn't been reviewed yet, proceed with caution"@;
    b == (BlockView::Callout {
        rich_text: seq![
            RichTextView::Text {
                content: said,
                link: None,
                annotations: Annotations { color: Color::Red, ..rendering::unstyled() },
                plain_text: said,
                href: None,
            },
        ],
        icon: Some("⚠️"@),
    })
}

/// Whether a run is another in red, and otherwise the same.
pub open spec fn is_reddened(run: RichTextView, red: RichTextView) -> bool {
    match (run, red) {
        (
            RichTextView::Text { content, link, annotations, plain_text, href },
            RichTextView::Text { content: c, link: l, annotations: a, plain_text: p, href: h },
        ) => c == content && l == link && p == plain_text && h == href && a == (Annotations {
            color: Color::Red,
            ..annotations
        }),
        (
            RichTextView::Mention { mention, annotations, plain_text, href },
            RichTextView::Mention { mention: m, annotations: a, plain_text: p, href: h },
        ) => m == mention && p == plain_text && h == href && a == (Annotations {
            color: Color::Red,
            ..annotations
        }),
        (
            RichTextView::Equation { expression, annotations, plain_text, href },
            RichTextView::Equation { expression: e, annotations: a, plain_text: p, href: h },
        ) => e == expression && p == plain_text && h == href && a == (Annotations {
            color: Color::Red,
            ..annotations
        }),
        _ => false,
    }
}

/// Where blocks have a level-1 heading, the banner turns the first of them red
/// and puts the warning right below; all other blocks stay, in their order.
pub proof fn law_banner_below_heading(bs: Seq<BlockView>, i: int)
    requires
        0 <= i < bs.len(),
        bs[i] is Heading1,
        forall|j: int| 0 <= j < i ==> !(#[trigger] bs[j] is Heading1),
    ensures
        ({
            let r = transformers::bannered(bs);
            let runs = bs[i]->Heading1_rich_text;
            &&& r.len() == bs.len() + 1
            &&& r.take(i) == bs.take(i)
            &&& r[i] is Heading1
            &&& r[i]->Heading1_rich_text.len() == runs.len()
            &&& forall|k: int|
                0 <= k < runs.len() ==> is_reddened(
                    #[trigger] runs[k],
                    r[i]->Heading1_rich_text[k],
                )
            &&& is_warning(r[i + 1])
            &&& r.skip(i + 2) == bs.skip(i + 1)
        }),
{
    lemma_first_h1_is(bs, 0, i);
    let r = transformers::bannered(bs);
    assert(r.take(i) =~= bs.take(i));
    assert(r.skip(i + 2) =~= bs.skip(i + 1));
}

/// Where blocks have no level-1 heading, the banner puts the warning before all
/// of them.
pub proof fn law_banner_first(bs: Seq<BlockView>)
    requires
        forall|j: int| 0 <= j < bs.len() ==> !(#[trigger] bs[j] is Heading1),
    ensures
        transformers::bannered(bs).len() == bs.len() + 1,
        is_warning(transformers::bannered(bs)[0]),
        transformers::bannered(bs).drop_first() == bs,
{
    lemma_no_first_h1(bs, 0);
    assert(transformers::bannered(bs).drop_first() =~= bs);
}

proof fn lemma_first_h1_is(bs: Seq<BlockView>, i: int, k: int)
    requires
        0 <= i <= k < bs.len(),
        bs[k] is Heading1,
        forall|j: int| i <= j < k ==> !(#[trigger] bs[j] is Heading1),
    ensures
        transformers::first_h1(bs, i) == Some(k),
    decreases k - i,
{
    if i < k {
        lemma_first_h1_is(bs, i + 1, k);
    }
}

proof fn lemma_no_first_h1(bs: Seq<BlockView>, i: int)
    requires
        0 <= i,
        forall|j: int| i <= j < bs.len() ==> !(#[trigger] bs[j] is Heading1),
    ensures
        transformers::first_h1(bs, i) is None,
    decreases bs.len() - i,
{
    if i < bs.len() {
        lemma_no_first_h1(bs, i + 1);
    }
}

// ---------------------------------------------------------------------
// Tags and content
// ---------------------------------------------------------------------

/// Whether one of a node's tags is the given one, but for case.
pub open spec fn is_tagged(n: NodeView, tag: Seq<char>) -> bool {
    exists|i: int| 0 <= i < n.tags.len() && texts::same_but_for_case(#[trigger] n.tags[i], tag)
}

/// A node carries exactly the tags that are among its tags, at whatever place,
/// but for case.
pub proof fn law_tags_are_carried(n: NodeView, tag: Seq<char>)
    ensures
        org_parser::carries_tag(n, tag) <==> is_tagged(n, tag),
        forall|i: int|
            0 <= i < n.tags.len() && texts::same_but_for_case(#[trigger] n.tags[i], tag)
                ==> org_parser::carries_tag(n, tag),
{
    assert forall|i: int| 0 <= i < n.tags.len() implies crate::text::same_ignoring_case(
        #[trigger] n.tags[i],
        tag,
    ) == texts::same_but_for_case(n.tags[i], tag) by {
        texts::law_case_is_ignored(n.tags[i], tag);
    }
}

/// If any of a node's tags is `unreviewed`, in whatever case, its content starts
/// with the warning; if none is, there is no warning before its own blocks. Its
/// own blocks follow one for one, each converted by itself and with its targets
/// in bold.
pub proof fn law_unreviewed_is_warned_of(n: NodeView, links: LinkMapView)
    ensures
        ({
            let c = content::content_of(n, links);
            let skipped: int = if is_tagged(n, "unreviewed"@) { 1 } else { 0 };
            &&& c.len() == skipped + n.blocks.len()
            &&& skipped == 1 ==> is_warning(c[0])
            &&& forall|k: int|
                0 <= k < n.blocks.len() ==> c[skipped + k] == transformers::anchored(
                    converter::block_spec(#[trigger] n.blocks[k], links),
                )
        }),
{
    law_tags_are_carried(n, "unreviewed"@);
    let r = content::rendered(n.blocks, links);
    assert forall|k: int| 0 <= k < n.blocks.len() implies r[k] == transformers::anchored(
        converter::block_spec(#[trigger] n.blocks[k], links),
    ) by {}
}

/// The heading that introduces a merged node is one level-1 heading that reads
/// as the node's title.
pub proof fn law_heading_reads_as_title(n: NodeView)
    requires
        n.title.len() <= 2000,
        forall|i: int| 0 <= i < n.title.len() ==> #[trigger] n.title[i] != '<',
    ensures
        content::heading_of(n) == seq![
            BlockView::Heading1 {
                rich_text: seq![
                    RichTextView::Text {
                        content: n.title,
                        link: None,
                        annotations: rendering::unstyled(),
                        plain_text: n.title,
                        href: None,
                    },
                ],
            },
        ],
{
    let spans = seq![SpanView::Text(n.title)];
    let none = Map::<Seq<char>, LinkTargetView>::empty();
    let run = converter::plain_run(n.title);
    rendering::law_runs_follow_spans(spans, spans, SpanView::Text(n.title), none);
    assert(converter::chunks(n.title) =~= seq![n.title]);
    assert(converter::all_runs(spans, none) =~= seq![run]);
    let b = converter::block_spec(OrgBlockView::Heading { level: 1, spans }, none);
    law_rewriting_follows_runs(seq![run], seq![run], run);
    if n.title.len() > 0 {
        lemma_no_next_target(n.title, 0);
        assert(n.title.subrange(0, n.title.len() as int) =~= n.title);
    }
    assert(transformers::segments(n.title) =~= seq![SegmentView::Plain(n.title)]);
    assert(transformers::rewritten(run) =~= seq![run]);
    assert(content::heading_of(n) =~= seq![transformers::anchored(b)]);
}

} // verus!
