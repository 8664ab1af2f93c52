//! Pipeline steps for the [`crate::converter::Converter`].

use crate::blocks;
use crate::blocks::{Annotations, Block, BlockView, Color, RichText, RichTextView};
use crate::converter;
use crate::converter::{rich_text_mut, text_run, MAX_RICH_TEXT_ITEMS};
use crate::text;
use vstd::prelude::*;

verus! {

// ---------------------------------------------------------------------
// Anchors
// ---------------------------------------------------------------------

/// A piece of a text: plain, or the inner text of an org target `<<...>>`.
#[derive(Debug, PartialEq, Eq)]
pub enum Segment {
    Plain(String),
    Anchor(String),
}

/// The model of a segment.
pub enum SegmentView {
    Plain(Seq<char>),
    Anchor(Seq<char>),
}

impl DeepView for Segment {
    type V = SegmentView;

    open spec fn deep_view(&self) -> SegmentView {
        match self {
            Segment::Plain(t) => SegmentView::Plain(t@),
            Segment::Anchor(t) => SegmentView::Anchor(t@),
        }
    }
}

/// Whether a character cannot stand in a target.
pub open spec fn ends_target(c: char) -> bool {
    c == '<' || c == '>' || c == '\n'
}

/// The first position from `i` on of a character that cannot stand in a
/// target, or the end of the text.
pub open spec fn target_end(s: Seq<char>, i: int) -> int
    decreases s.len() - i,
{
    if i >= s.len() || ends_target(s[i]) {
        i
    } else {
        target_end(s, i + 1)
    }
}

/// Whether `<<` stands at `i`.
pub open spec fn opens_at(s: Seq<char>, i: int) -> bool {
    0 <= i && i + 1 < s.len() && s[i] == '<' && s[i + 1] == '<'
}

/// Whether `>>` stands at `i`.
pub open spec fn closes_at(s: Seq<char>, i: int) -> bool {
    0 <= i && i + 1 < s.len() && s[i] == '>' && s[i + 1] == '>'
}

/// Whether a well-formed target starts at `i`: `<<`, then at least one
/// character and none that cannot stand in a target, then `>>`.
pub open spec fn target_at(s: Seq<char>, i: int) -> bool {
    opens_at(s, i) && target_end(s, i + 2) > i + 2 && closes_at(s, target_end(s, i + 2))
}

/// The first position from `i` on at which a well-formed target starts.
pub open spec fn next_target(s: Seq<char>, i: int) -> Option<int>
    decreases s.len() - i,
{
    if i >= s.len() {
        None
    } else if target_at(s, i) {
        Some(i)
    } else {
        next_target(s, i + 1)
    }
}

/// The text between two positions as a plain segment, where there is any.
pub open spec fn plain_between(s: Seq<char>, lo: int, hi: int) -> Seq<SegmentView> {
    if lo < hi {
        seq![SegmentView::Plain(s.subrange(lo, hi))]
    } else {
        Seq::<SegmentView>::empty()
    }
}

/// The segments of the text from `start` on.
pub open spec fn segments_from(s: Seq<char>, start: int) -> Seq<SegmentView>
    decreases s.len() - start,
    when start >= 0
{
    proof {
        lemma_next_target(s, start);
    }
    match next_target(s, start) {
        None => plain_between(s, start, s.len() as int),
        Some(open) => {
            let close = target_end(s, open + 2);
            plain_between(s, start, open) + seq![SegmentView::Anchor(s.subrange(open + 2, close))]
                + segments_from(s, close + 2)
        },
    }
}

/// The segments of a text: at least one.
pub open spec fn segments(s: Seq<char>) -> Seq<SegmentView> {
    if s.len() == 0 {
        seq![SegmentView::Plain(s)]
    } else {
        segments_from(s, 0)
    }
}

proof fn lemma_target_end(s: Seq<char>, i: int)
    requires
        0 <= i <= s.len(),
    ensures
        i <= target_end(s, i) <= s.len(),
        forall|j: int| i <= j < target_end(s, i) ==> !ends_target(#[trigger] s[j]),
    decreases s.len() - i,
{
    if i < s.len() && !ends_target(s[i]) {
        lemma_target_end(s, i + 1);
    }
}

/// Where the next target is found, it is one, and where none is found there is none.
pub proof fn lemma_next_target(s: Seq<char>, i: int)
    requires
        0 <= i,
    ensures
        match next_target(s, i) {
            Some(open) => i <= open && target_at(s, open) && open + 2 < target_end(s, open + 2)
                && target_end(s, open + 2) + 2 <= s.len(),
            None => true,
        },
        next_target(s, i) is None ==> forall|j: int| i <= j < s.len() ==> !#[trigger] target_at(s, j),
    decreases s.len() - i,
{
    if i < s.len() && !target_at(s, i) {
        lemma_next_target(s, i + 1);
    }
}

fn find_target_end(cs: &Vec<char>, i: usize) -> (r: usize)
    requires
        i <= cs@.len(),
    ensures
        r == target_end(cs@, i as int),
        i <= r <= cs@.len(),
{
    let mut k: usize = i;
    while k < cs.len() && !(cs[k] == '<' || cs[k] == '>' || cs[k] == '\n')
        invariant
            i <= k <= cs@.len(),
            target_end(cs@, k as int) == target_end(cs@, i as int),
        decreases cs.len() - k,
    {
        k = k + 1;
    }
    k
}

fn push_plain(out: &mut Vec<Segment>, cs: &Vec<char>, lo: usize, hi: usize)
    requires
        lo <= hi <= cs@.len(),
    ensures
        final(out).deep_view() == old(out).deep_view() + plain_between(cs@, lo as int, hi as int),
{
    let ghost before = out.deep_view();
    if lo < hi {
        let t: String = text::string_of(cs, lo, hi);
        out.push(Segment::Plain(t));
        assert(out.deep_view() =~= before + seq![SegmentView::Plain(t@)]);
    }
    assert(out.deep_view() =~= before + plain_between(cs@, lo as int, hi as int));
}

/// Splits a text into plain segments and the inner texts of its targets. A
/// `<<` without a well-formed target stays literal.
pub fn split_anchors(s: &str) -> (r: Vec<Segment>)
    ensures
        r.deep_view() == segments(s@),
{
    let cs: Vec<char> = text::chars_of(s);
    let n: usize = cs.len();
    let mut out: Vec<Segment> = Vec::new();
    if n == 0 {
        out.push(Segment::Plain(String::new()));
        assert(s@ =~= Seq::<char>::empty());
        assert(out.deep_view() =~= seq![SegmentView::Plain(s@)]);
        return out;
    }
    let mut start: usize = 0;
    let mut cursor: usize = 0;
    assert(out.deep_view() + segments_from(s@, 0) =~= segments_from(s@, 0));
    while cursor < n
        invariant
            n == cs@.len(),
            cs@ == s@,
            start <= cursor <= n,
            next_target(s@, start as int) == next_target(s@, cursor as int),
            out.deep_view() + segments_from(s@, start as int) == segments_from(s@, 0),
        decreases n - cursor,
    {
        if cs[cursor] == '<' && n - cursor > 1 && cs[cursor + 1] == '<' {
            let close: usize = find_target_end(&cs, cursor + 2);
            if close > cursor + 2 && n - close > 1 && cs[close] == '>' && cs[close + 1] == '>' {
                let ghost before = out.deep_view();
                push_plain(&mut out, &cs, start, cursor);
                let ghost mid = out.deep_view();
                let inner: String = text::string_of(&cs, cursor + 2, close);
                out.push(Segment::Anchor(inner));
                proof {
                    assert(target_at(s@, cursor as int));
                    assert(out.deep_view() =~= mid + seq![SegmentView::Anchor(inner@)]);
                    assert(out.deep_view() + segments_from(s@, close + 2) =~= before
                        + segments_from(s@, start as int));
                }
                start = close + 2;
                cursor = start;
                continue;
            }
        }
        assert(!target_at(s@, cursor as int));
        cursor = cursor + 1;
    }
    push_plain(&mut out, &cs, start, n);
    out
}

/// Whether a run can hold targets: plain text that is not linked.
pub open spec fn is_plain_unlinked(run: RichTextView) -> bool {
    match run {
        RichTextView::Text { content: _, link, annotations, plain_text: _, href: _ } => annotations
            == blocks::plain_style() && link is None,
        _ => false,
    }
}

/// The run of a segment: a target is bold.
pub open spec fn segment_run(s: SegmentView) -> RichTextView {
    match s {
        SegmentView::Plain(t) => converter::plain_run(t),
        SegmentView::Anchor(t) => converter::styled_run(
            t,
            Annotations { bold: true, ..blocks::plain_style() },
        ),
    }
}

/// What becomes of one run.
pub open spec fn rewritten(run: RichTextView) -> Seq<RichTextView> {
    if is_plain_unlinked(run) {
        segments(run->Text_content).map_values(|s: SegmentView| segment_run(s))
    } else {
        seq![run]
    }
}

/// What becomes of runs, one after another.
pub open spec fn all_rewritten(runs: Seq<RichTextView>) -> Seq<RichTextView>
    decreases runs.len(),
{
    if runs.len() == 0 {
        Seq::<RichTextView>::empty()
    } else {
        all_rewritten(runs.drop_last()) + rewritten(runs.last())
    }
}

/// The block with its targets in bold.
pub open spec fn anchored(b: BlockView) -> BlockView {
    match blocks::inline_text(b) {
        Some(runs) => blocks::with_inline_text(b, converter::capped(all_rewritten(runs))),
        None => b,
    }
}

/// The blocks with their targets in bold.
pub open spec fn all_anchored(bs: Seq<BlockView>) -> Seq<BlockView> {
    bs.map_values(|b: BlockView| anchored(b))
}

fn bold_run(content: &str) -> (r: RichText)
    ensures
        r.deep_view() == segment_run(SegmentView::Anchor(content@)),
{
    let mut annotations: Annotations = Annotations::default();
    annotations.bold = true;
    RichText::Text {
        content: content.to_owned(),
        link: None,
        annotations,
        plain_text: content.to_owned(),
        href: None,
    }
}

fn runs_of_text(content: &str) -> (r: Vec<RichText>)
    ensures
        r.deep_view() == segments(content@).map_values(|s: SegmentView| segment_run(s)),
{
    let parts: Vec<Segment> = split_anchors(content);
    let mut out: Vec<RichText> = Vec::new();
    let ghost all = segments(content@).map_values(|s: SegmentView| segment_run(s));
    let mut i: usize = 0;
    while i < parts.len()
        invariant
            parts.deep_view() == segments(content@),
            all == segments(content@).map_values(|s: SegmentView| segment_run(s)),
            i <= parts@.len(),
            out.deep_view() == all.take(i as int),
        decreases parts.len() - i,
    {
        let ghost before = out.deep_view();
        assert(parts.deep_view()[i as int] == parts[i as int].deep_view());
        let run: RichText = match &parts[i] {
            Segment::Plain(t) => text_run(t.as_str()),
            Segment::Anchor(t) => bold_run(t.as_str()),
        };
        out.push(run);
        assert(out.deep_view() =~= before.push(run.deep_view()));
        i = i + 1;
    }
    assert(all.take(i as int) =~= all);
    out
}

fn rewrite_run(run: RichText) -> (r: Vec<RichText>)
    ensures
        r.deep_view() == rewritten(run.deep_view()),
{
    let plain: bool = match &run {
        RichText::Text { content: _, link, annotations, plain_text: _, href: _ } => *annotations
            == Annotations::default() && link.is_none(),
        _ => false,
    };
    if plain {
        match &run {
            RichText::Text { content, .. } => {
                return runs_of_text(content.as_str());
            },
            _ => {},
        }
    }
    let mut out: Vec<RichText> = Vec::new();
    out.push(run);
    assert(out.deep_view() =~= seq![run.deep_view()]);
    out
}

fn rewrite_runs(runs: Vec<RichText>) -> (r: Vec<RichText>)
    ensures
        r.deep_view() == converter::capped(all_rewritten(runs.deep_view())),
{
    let ghost all = runs.deep_view();
    let mut out: Vec<RichText> = Vec::new();
    assert(out.deep_view() =~= all_rewritten(all.take(0)));
    for run in it: runs
        invariant
            it.seq() == runs@,
            all == runs.deep_view(),
            out.deep_view() == all_rewritten(all.take(it.index() as int)),
    {
        let ghost i = it.index() as int;
        let ghost before = out.deep_view();
        assert(all.take(i + 1).drop_last() =~= all.take(i));
        assert(all.take(i + 1).last() == run.deep_view());
        let mut new: Vec<RichText> = rewrite_run(run);
        let ghost added = new.deep_view();
        out.append(&mut new);
        assert(out.deep_view() =~= before + added);
    }
    assert(all.take(all.len() as int) =~= all);
    let ghost full = out.deep_view();
    out.truncate(MAX_RICH_TEXT_ITEMS);
    assert(out.deep_view() =~= converter::capped(full));
    out
}

fn anchor_block(block: Block) -> (r: Block)
    ensures
        r.deep_view() == anchored(block.deep_view()),
{
    let mut b: Block = block;
    match rich_text_mut(&mut b) {
        Some(runs) => {
            let mut taken: Vec<RichText> = Vec::new();
            std::mem::swap(&mut taken, runs);
            *runs = rewrite_runs(taken);
        },
        None => {},
    }
    b
}

/// A step that renders org targets (`<<...>>`) as bold text: the runs that
/// hold them are split, and the target's text, without the angle brackets,
/// becomes a bold run. Code, mentions and runs that are styled or linked stay
/// as they are.
pub fn anchors_to_bold(notion_blocks: Vec<Block>) -> (r: Vec<Block>)
    ensures
        r.deep_view() == all_anchored(notion_blocks.deep_view()),
{
    let ghost all = notion_blocks.deep_view();
    let mut out: Vec<Block> = Vec::new();
    for block in it: notion_blocks
        invariant
            it.seq() == notion_blocks@,
            all == notion_blocks.deep_view(),
            out.deep_view() == all_anchored(all).take(it.index() as int),
    {
        let ghost before = out.deep_view();
        let b: Block = anchor_block(block);
        assert(all[it.index() as int] == block.deep_view());
        out.push(b);
        assert(out.deep_view() =~= before.push(b.deep_view()));
    }
    assert(all_anchored(all).take(all.len() as int) =~= all_anchored(all));
    out
}

// ---------------------------------------------------------------------
// The unreviewed banner
// ---------------------------------------------------------------------

/// The callout that warns of unreviewed content.
pub open spec fn warning_spec() -> BlockView {
    BlockView::Callout {
        rich_text: seq![
            blocks::recolored(
                converter::plain_run(
                    "This content hasn't been reviewed yet, proceed with caution"@,
                ),
                Color::Red,
            ),
        ],
        icon: Some("⚠️"@),
    }
}

/// The position of the first level-1 heading.
pub open spec fn first_h1(bs: Seq<BlockView>, i: int) -> Option<int>
    decreases bs.len() - i,
{
    if i >= bs.len() {
        None
    } else if bs[i] is Heading1 {
        Some(i)
    } else {
        first_h1(bs, i + 1)
    }
}

/// The runs in red.
pub open spec fn reddened(runs: Seq<RichTextView>) -> Seq<RichTextView> {
    runs.map_values(|r: RichTextView| blocks::recolored(r, Color::Red))
}

/// The blocks of a page that is flagged as unreviewed.
pub open spec fn bannered(bs: Seq<BlockView>) -> Seq<BlockView> {
    match first_h1(bs, 0) {
        Some(i) => bs.update(
            i,
            BlockView::Heading1 { rich_text: reddened(bs[i]->Heading1_rich_text) },
        ).insert(i + 1, warning_spec()),
        None => bs.insert(0, warning_spec()),
    }
}

fn set_color(run: RichText, color: Color) -> (r: RichText)
    ensures
        r.deep_view() == blocks::recolored(run.deep_view(), color),
{
    match run {
        RichText::Text { content, link, annotations, plain_text, href } => RichText::Text {
            content,
            link,
            annotations: Annotations { color, ..annotations },
            plain_text,
            href,
        },
        RichText::Mention { mention, annotations, plain_text, href } => RichText::Mention {
            mention,
            annotations: Annotations { color, ..annotations },
            plain_text,
            href,
        },
        RichText::Equation { expression, annotations, plain_text, href } => RichText::Equation {
            expression,
            annotations: Annotations { color, ..annotations },
            plain_text,
            href,
        },
    }
}

fn redden(runs: Vec<RichText>) -> (r: Vec<RichText>)
    ensures
        r.deep_view() == reddened(runs.deep_view()),
{
    let ghost all = runs.deep_view();
    let mut out: Vec<RichText> = Vec::new();
    for run in it: runs
        invariant
            it.seq() == runs@,
            all == runs.deep_view(),
            out.deep_view() == reddened(all).take(it.index() as int),
    {
        let ghost before = out.deep_view();
        assert(all[it.index() as int] == run.deep_view());
        let red: RichText = set_color(run, Color::Red);
        out.push(red);
        assert(out.deep_view() =~= before.push(red.deep_view()));
    }
    assert(reddened(all).take(all.len() as int) =~= reddened(all));
    out
}

/// The callout that warns of unreviewed content.
pub fn warning_callout() -> (r: Block)
    ensures
        r.deep_view() == warning_spec(),
{
    let run: RichText = set_color(
        text_run("This content hasn't been reviewed yet, proceed with caution"),
        Color::Red,
    );
    let mut rich_text: Vec<RichText> = Vec::new();
    rich_text.push(run);
    assert(rich_text.deep_view() =~= seq![run.deep_view()]);
    Block::Callout { rich_text, icon: Some("⚠️".to_owned()) }
}

/// A step that flags a page as unreviewed: the first level-1 heading turns
/// red and the warning callout goes right below it; without such a heading the
/// callout comes first.
pub fn unreviewed_banner(notion_blocks: Vec<Block>) -> (r: Vec<Block>)
    ensures
        r.deep_view() == bannered(notion_blocks.deep_view()),
{
    let mut bs: Vec<Block> = notion_blocks;
    let ghost all = bs.deep_view();
    let mut i: usize = 0;
    while i < bs.len()
        invariant
            all == bs.deep_view(),
            all == notion_blocks.deep_view(),
            i <= bs@.len(),
            first_h1(all, i as int) == first_h1(all, 0),
        decreases bs.len() - i,
    {
        assert(all[i as int] == bs[i as int].deep_view());
        if let Block::Heading1 { rich_text: _ } = &bs[i] {
            let heading: Block = bs.remove(i);
            let red: Block = match heading {
                Block::Heading1 { rich_text } => Block::Heading1 { rich_text: redden(rich_text) },
                other => other,
            };
            bs.insert(i, red);
            let callout: Block = warning_callout();
            bs.insert(i + 1, callout);
            assert(bs.deep_view() =~= bannered(all));
            return bs;
        }
        i = i + 1;
    }
    let callout: Block = warning_callout();
    bs.insert(0, callout);
    assert(bs.deep_view() =~= bannered(all));
    bs
}

// ---------------------------------------------------------------------
// Laws
// ---------------------------------------------------------------------

/// The text that a segment was cut out of.
pub open spec fn source_of(s: SegmentView) -> Seq<char> {
    match s {
        SegmentView::Plain(t) => t,
        SegmentView::Anchor(t) => seq!['<', '<'] + t + seq!['>', '>'],
    }
}

/// The text that segments were cut out of.
pub open spec fn all_sources(parts: Seq<SegmentView>) -> Seq<char>
    decreases parts.len(),
{
    if parts.len() == 0 {
        Seq::<char>::empty()
    } else {
        source_of(parts.first()) + all_sources(parts.drop_first())
    }
}

proof fn lemma_sources_concat(a: Seq<SegmentView>, b: Seq<SegmentView>)
    ensures
        all_sources(a + b) == all_sources(a) + all_sources(b),
    decreases a.len(),
{
    if a.len() == 0 {
        assert(a + b =~= b);
        assert(all_sources(a) + all_sources(b) =~= all_sources(b));
    } else {
        assert((a + b).drop_first() =~= a.drop_first() + b);
        assert((a + b).first() == a.first());
        lemma_sources_concat(a.drop_first(), b);
        assert(all_sources(a + b) =~= all_sources(a) + all_sources(b));
    }
}

proof fn lemma_source_of_one(x: SegmentView)
    ensures
        all_sources(seq![x]) == source_of(x),
{
    assert(seq![x].drop_first() =~= Seq::<SegmentView>::empty());
    assert(all_sources(seq![x].drop_first()) == Seq::<char>::empty());
    assert(all_sources(seq![x]) =~= source_of(x));
}

proof fn lemma_plain_source(s: Seq<char>, lo: int, hi: int)
    requires
        0 <= lo <= hi <= s.len(),
    ensures
        all_sources(plain_between(s, lo, hi)) == s.subrange(lo, hi),
{
    if lo < hi {
        lemma_source_of_one(SegmentView::Plain(s.subrange(lo, hi)));
    } else {
        assert(s.subrange(lo, hi) =~= Seq::<char>::empty());
    }
}

proof fn lemma_sources_from(s: Seq<char>, start: int)
    requires
        0 <= start <= s.len(),
    ensures
        all_sources(segments_from(s, start)) == s.skip(start),
    decreases s.len() - start,
{
    lemma_next_target(s, start);
    match next_target(s, start) {
        None => {
            lemma_plain_source(s, start, s.len() as int);
            assert(s.subrange(start, s.len() as int) =~= s.skip(start));
        },
        Some(open) => {
            let close = target_end(s, open + 2);
            let a = plain_between(s, start, open);
            let x = SegmentView::Anchor(s.subrange(open + 2, close));
            let rest = segments_from(s, close + 2);
            lemma_plain_source(s, start, open);
            lemma_source_of_one(x);
            lemma_sources_from(s, close + 2);
            lemma_sources_concat(a, seq![x]);
            lemma_sources_concat(a + seq![x], rest);
            assert(s.skip(start) =~= s.subrange(start, open) + (seq!['<', '<'] + s.subrange(
                open + 2,
                close,
            ) + seq!['>', '>']) + s.skip(close + 2));
        },
    }
}

/// Splitting loses nothing: the segments, with the angle brackets put back,
/// make up the text.
pub proof fn law_split_loses_nothing(s: Seq<char>)
    ensures
        all_sources(segments(s)) == s,
        segments(s).len() > 0,
{
    if s.len() == 0 {
        lemma_source_of_one(SegmentView::Plain(s));
    } else {
        lemma_sources_from(s, 0);
        assert(s.skip(0) =~= s);
        if segments(s).len() == 0 {
            assert(all_sources(segments(s)).len() == 0);
        }
    }
}

/// Whether the text holds a well-formed target.
pub open spec fn has_target(s: Seq<char>) -> bool {
    exists|i: int| 0 <= i < s.len() && #[trigger] target_at(s, i)
}

/// A text without a well-formed target is one plain segment.
pub proof fn law_no_target_untouched(s: Seq<char>)
    requires
        !has_target(s),
    ensures
        segments(s) == seq![SegmentView::Plain(s)],
        rewritten(converter::plain_run(s)) == seq![converter::plain_run(s)],
{
    lemma_next_target(s, 0);
    if s.len() > 0 {
        match next_target(s, 0) {
            Some(i) => {
                assert(target_at(s, i));
            },
            None => {},
        }
        assert(s.subrange(0, s.len() as int) =~= s);
    }
    let r = rewritten(converter::plain_run(s));
    assert(r =~= seq![converter::plain_run(s)]);
}

/// Whether a text can be the inner text of a target.
pub open spec fn is_target_text(t: Seq<char>) -> bool {
    t.len() > 0 && forall|i: int| 0 <= i < t.len() ==> !ends_target(#[trigger] t[i])
}

proof fn lemma_anchors_from(s: Seq<char>, start: int, k: int)
    requires
        0 <= start <= s.len(),
        0 <= k < segments_from(s, start).len(),
        segments_from(s, start)[k] is Anchor,
    ensures
        is_target_text(segments_from(s, start)[k]->Anchor_0),
    decreases s.len() - start,
{
    lemma_next_target(s, start);
    match next_target(s, start) {
        None => {},
        Some(open) => {
            let close = target_end(s, open + 2);
            let a = plain_between(s, start, open);
            let inner = s.subrange(open + 2, close);
            let rest = segments_from(s, close + 2);
            if k < a.len() {
            } else if k == a.len() {
                lemma_target_end(s, open + 2);
                assert forall|i: int| 0 <= i < inner.len() implies !ends_target(
                    #[trigger] inner[i],
                ) by {
                    assert(inner[i] == s[open + 2 + i]);
                }
            } else {
                assert(segments_from(s, start)[k] == rest[k - a.len() - 1]);
                lemma_anchors_from(s, close + 2, k - a.len() - 1);
            }
        },
    }
}

/// The inner text of a target is not empty and holds no angle bracket and no
/// line feed.
pub proof fn law_anchor_texts(s: Seq<char>, k: int)
    requires
        0 <= k < segments(s).len(),
        segments(s)[k] is Anchor,
    ensures
        is_target_text(segments(s)[k]->Anchor_0),
{
    if s.len() > 0 {
        lemma_anchors_from(s, 0, k);
    }
}

/// Rendering targets in bold keeps the number of blocks, leaves code as it is,
/// and leaves every run as it is that is styled, linked or a mention.
pub proof fn law_anchors_keep(bs: Seq<BlockView>, i: int, run: RichTextView)
    requires
        0 <= i < bs.len(),
    ensures
        all_anchored(bs).len() == bs.len(),
        bs[i] is Code ==> all_anchored(bs)[i] == bs[i],
        !is_plain_unlinked(run) ==> rewritten(run) == seq![run],
{
}

proof fn lemma_kept_in_rewritten(runs: Seq<RichTextView>, run: RichTextView)
    requires
        runs.contains(run),
        !is_plain_unlinked(run),
    ensures
        all_rewritten(runs).contains(run),
    decreases runs.len(),
{
    let k = choose|k: int| 0 <= k < runs.len() && runs[k] == run;
    let (a, b) = (all_rewritten(runs.drop_last()), rewritten(runs.last()));
    if k < runs.len() - 1 {
        assert(runs.drop_last()[k] == run);
        lemma_kept_in_rewritten(runs.drop_last(), run);
        let m = choose|m: int| 0 <= m < a.len() && a[m] == run;
        assert((a + b)[m] == run);
    } else {
        assert(b =~= seq![run]);
        assert((a + b)[a.len() as int] == run);
    }
}

/// A mention stays where targets are rendered in bold, as long as the runs are
/// no more than Notion takes.
pub proof fn law_mentions_survive(b: BlockView, runs: Seq<RichTextView>, run: RichTextView)
    requires
        blocks::inline_text(b) == Some(runs),
        runs.contains(run),
        run is Mention,
        all_rewritten(runs).len() <= MAX_RICH_TEXT_ITEMS,
    ensures
        blocks::inline_text(anchored(b)) == Some(all_rewritten(runs)),
        all_rewritten(runs).contains(run),
{
    lemma_kept_in_rewritten(runs, run);
}

/// The banner adds one block, the warning: right below the first level-1
/// heading, which turns red, or before everything else. All other blocks stay
/// as they are.
pub proof fn law_banner(bs: Seq<BlockView>)
    ensures
        bannered(bs).len() == bs.len() + 1,
        match first_h1(bs, 0) {
            Some(i) => {
                &&& 0 <= i < bs.len()
                &&& bs[i] is Heading1
                &&& forall|j: int| 0 <= j < i ==> !(#[trigger] bs[j] is Heading1)
                &&& bannered(bs)[i + 1] == warning_spec()
                &&& forall|j: int| 0 <= j < i ==> #[trigger] bannered(bs)[j] == bs[j]
                &&& forall|j: int| i + 1 < j <= bs.len() ==> #[trigger] bannered(bs)[j] == bs[j - 1]
            },
            None => {
                &&& forall|j: int| 0 <= j < bs.len() ==> !(#[trigger] bs[j] is Heading1)
                &&& bannered(bs)[0] == warning_spec()
                &&& forall|j: int| 0 < j <= bs.len() ==> #[trigger] bannered(bs)[j] == bs[j - 1]
            },
        },
{
    lemma_first_h1(bs, 0);
}

proof fn lemma_first_h1(bs: Seq<BlockView>, i: int)
    requires
        0 <= i <= bs.len(),
    ensures
        match first_h1(bs, i) {
            Some(k) => i <= k < bs.len() && bs[k] is Heading1 && forall|j: int|
                i <= j < k ==> !(#[trigger] bs[j] is Heading1),
            None => forall|j: int| i <= j < bs.len() ==> !(#[trigger] bs[j] is Heading1),
        },
    decreases bs.len() - i,
{
    if i < bs.len() && !(bs[i] is Heading1) {
        lemma_first_h1(bs, i + 1);
    }
}

} // verus!
