//! What becomes of a node's blocks on their way to Notion, said of the blocks
//! and runs themselves.

use crate::blocks;
use crate::blocks::{Annotations, BlockView, Color, MentionView, RichTextView};
use crate::converter;
use crate::converter::{Converter, LinkMapView, LinkTargetView, NoSteps, Steps, Then};
use crate::org_parser::{Markup, OrgBlock, OrgBlockView, SpanView};
use crate::text;
use vstd::prelude::*;

verus! {

// ---------------------------------------------------------------------
// Runs
// ---------------------------------------------------------------------

/// A style in which nothing is set but, if so, one of bold, italic, underlined,
/// struck through and code.
pub open spec fn only(
    bold: bool,
    italic: bool,
    underline: bool,
    strikethrough: bool,
    code: bool,
) -> Annotations {
    Annotations { bold, italic, strikethrough, underline, code, color: Color::Default }
}

/// No style.
pub open spec fn unstyled() -> Annotations {
    only(false, false, false, false, false)
}

/// What runs of text read as, one after another; other runs read as nothing.
pub open spec fn spoken(runs: Seq<RichTextView>) -> Seq<char>
    decreases runs.len(),
{
    if runs.len() == 0 {
        Seq::<char>::empty()
    } else {
        (match runs.first() {
            RichTextView::Text { content, .. } => content,
            _ => Seq::<char>::empty(),
        }) + spoken(runs.drop_first())
    }
}

/// Whether a run is a text in the given style that links where it should.
pub open spec fn is_text_run(run: RichTextView, style: Annotations, link: Option<Seq<char>>) -> bool {
    run matches RichTextView::Text { content, link: l, annotations, plain_text, href }
        && annotations == style && l == link && href == link && plain_text == content
}

/// Whether runs are a text in the given style and link where they should, cut
/// only where one run would exceed the 2000 characters that Notion takes.
pub open spec fn reads_as(
    runs: Seq<RichTextView>,
    t: Seq<char>,
    style: Annotations,
    link: Option<Seq<char>>,
) -> bool {
    &&& runs.len() > 0
    &&& spoken(runs) == t
    &&& forall|i: int| 0 <= i < runs.len() ==> is_text_run(#[trigger] runs[i], style, link)
    &&& forall|i: int|
        0 <= i < runs.len() - 1 ==> (#[trigger] runs[i])->Text_content.len() == 2000
    &&& runs.last()->Text_content.len() <= 2000
    &&& t.len() > 0 ==> runs.last()->Text_content.len() > 0
}

proof fn lemma_reads_as(
    t: Seq<char>,
    style: Annotations,
    link: Option<Seq<char>>,
    runs: Seq<RichTextView>,
)
    requires
        runs.len() == converter::chunks(t).len(),
        forall|i: int|
            0 <= i < runs.len() ==> #[trigger] runs[i] == (RichTextView::Text {
                content: converter::chunks(t)[i],
                link,
                annotations: style,
                plain_text: converter::chunks(t)[i],
                href: link,
            }),
    ensures
        reads_as(runs, t, style, link),
    decreases t.len(),
{
    let c = converter::chunks(t);
    let rest = runs.drop_first();
    if t.len() <= 2000 {
        assert(c.len() == 1 && c[0] == t);
        assert(rest.len() == 0);
        assert(spoken(rest) == Seq::<char>::empty());
        assert(runs.first() == runs[0]);
        assert(spoken(runs) =~= t);
    } else {
        let u = t.skip(2000);
        assert(c == seq![t.take(2000)] + converter::chunks(u));
        assert forall|i: int| 0 <= i < rest.len() implies #[trigger] rest[i]
            == (RichTextView::Text {
            content: converter::chunks(u)[i],
            link,
            annotations: style,
            plain_text: converter::chunks(u)[i],
            href: link,
        }) by {
            assert(rest[i] == runs[i + 1]);
            assert(c[i + 1] == converter::chunks(u)[i]);
        }
        lemma_reads_as(u, style, link, rest);
        assert(runs.first() == runs[0]);
        assert(spoken(runs) =~= t.take(2000) + u);
        assert(t.take(2000) + u =~= t);
        assert(runs.last() == rest.last());
        assert forall|i: int| 0 <= i < runs.len() - 1 implies (
        #[trigger] runs[i])->Text_content.len() == 2000 by {
            if i > 0 {
                assert(runs[i] == rest[i - 1]);
            }
        }
    }
}

/// A link to a node that has a page becomes a mention of that page and nothing
/// else, whatever the link is described as.
pub proof fn law_link_is_a_mention_alone(
    id: Seq<char>,
    description: Option<Seq<char>>,
    page_id: Seq<char>,
    links: LinkMapView,
)
    requires
        links.dom().contains(id),
        links[id] == LinkTargetView::Page(page_id),
    ensures
        converter::span_runs(SpanView::LinkRef { id, description }, links) == seq![
            RichTextView::Mention {
                mention: MentionView::Page { id: page_id },
                annotations: unstyled(),
                plain_text: Seq::<char>::empty(),
                href: None,
            },
        ],
{
    reveal_strlit("");
    assert(""@ =~= Seq::<char>::empty());
}

/// Text becomes runs that read as that text and nothing else: plain text
/// without a style, emphasized text in the one style of its emphasis.
pub proof fn law_text_reads_as_itself(t: Seq<char>, links: LinkMapView)
    ensures
        reads_as(converter::span_runs(SpanView::Text(t), links), t, unstyled(), None),
        forall|markup: Markup|
            reads_as(
                #[trigger] converter::span_runs(SpanView::Marked { text: t, markup }, links),
                t,
                only(
                    markup == Markup::Bold,
                    markup == Markup::Italic,
                    markup == Markup::Underline,
                    markup == Markup::Strikethrough,
                    markup == Markup::Code,
                ),
                None,
            ),
{
    lemma_reads_as(t, unstyled(), None, converter::span_runs(SpanView::Text(t), links));
    assert forall|markup: Markup|
        reads_as(
            #[trigger] converter::span_runs(SpanView::Marked { text: t, markup }, links),
            t,
            only(
                markup == Markup::Bold,
                markup == Markup::Italic,
                markup == Markup::Underline,
                markup == Markup::Strikethrough,
                markup == Markup::Code,
            ),
            None,
        ) by {
        lemma_reads_as(
            t,
            only(
                markup == Markup::Bold,
                markup == Markup::Italic,
                markup == Markup::Underline,
                markup == Markup::Strikethrough,
                markup == Markup::Code,
            ),
            None,
            converter::span_runs(SpanView::Marked { text: t, markup }, links),
        );
    }
}

/// A link that does not resolve reads as its description, or as the org link
/// itself, and links nowhere; one that resolves to a block reads as the block's
/// text and links to its URL; one to the web reads as its description, or as
/// its URL, and links to it.
pub proof fn law_other_links(
    id: Seq<char>,
    page_id: Seq<char>,
    url: Seq<char>,
    shown: Seq<char>,
    description: Option<Seq<char>>,
    links: LinkMapView,
)
    ensures
        !links.dom().contains(id) ==> reads_as(
            converter::span_runs(SpanView::LinkRef { id, description: Some(shown) }, links),
            shown,
            unstyled(),
            None,
        ),
        !links.dom().contains(id) ==> reads_as(
            converter::span_runs(SpanView::LinkRef { id, description: None }, links),
            seq!['[', '[', 'i', 'd', ':'] + id + seq![']', ']'],
            unstyled(),
            None,
        ),
        links.dom().contains(id) && links[id] == (LinkTargetView::Block {
            page_id,
            url,
            text: shown,
        }) ==> reads_as(
            converter::span_runs(SpanView::LinkRef { id, description }, links),
            shown,
            unstyled(),
            Some(url),
        ),
        reads_as(
            converter::span_runs(SpanView::ExternalLink { url, description: Some(shown) }, links),
            shown,
            unstyled(),
            Some(url),
        ),
        reads_as(
            converter::span_runs(SpanView::ExternalLink { url, description: None }, links),
            url,
            unstyled(),
            Some(url),
        ),
{
    reveal_strlit("[[id:");
    reveal_strlit("]]");
    assert("[[id:"@ + id + "]]"@ =~= seq!['[', '[', 'i', 'd', ':'] + id + seq![']', ']']);
    if !links.dom().contains(id) {
        lemma_reads_as(
            shown,
            unstyled(),
            None,
            converter::span_runs(SpanView::LinkRef { id, description: Some(shown) }, links),
        );
        lemma_reads_as(
            "[[id:"@ + id + "]]"@,
            unstyled(),
            None,
            converter::span_runs(SpanView::LinkRef { id, description: None }, links),
        );
    } else if links[id] == (LinkTargetView::Block { page_id, url, text: shown }) {
        lemma_reads_as(
            shown,
            unstyled(),
            Some(url),
            converter::span_runs(SpanView::LinkRef { id, description }, links),
        );
    }
    lemma_reads_as(
        shown,
        unstyled(),
        Some(url),
        converter::span_runs(SpanView::ExternalLink { url, description: Some(shown) }, links),
    );
    lemma_reads_as(
        url,
        unstyled(),
        Some(url),
        converter::span_runs(SpanView::ExternalLink { url, description: None }, links),
    );
}

/// The runs of spans are those of each span, one after another: nothing comes
/// between them, and nothing is left out.
pub proof fn law_runs_follow_spans(a: Seq<SpanView>, b: Seq<SpanView>, s: SpanView, links: LinkMapView)
    ensures
        converter::all_runs(a + b, links) == converter::all_runs(a, links) + converter::all_runs(
            b,
            links,
        ),
        converter::all_runs(seq![s], links) == converter::span_runs(s, links),
    decreases b.len(),
{
    assert(seq![s].drop_last() =~= Seq::<SpanView>::empty());
    assert(converter::all_runs(seq![s].drop_last(), links) =~= Seq::<RichTextView>::empty());
    assert(converter::all_runs(seq![s], links) =~= converter::span_runs(s, links));
    if b.len() == 0 {
        assert(a + b =~= a);
        assert(converter::all_runs(b, links) =~= Seq::<RichTextView>::empty());
    } else {
        law_runs_follow_spans(a, b.drop_last(), s, links);
        assert((a + b).drop_last() =~= a + b.drop_last());
        assert((a + b).last() == b.last());
        assert(converter::all_runs(a + b, links) =~= converter::all_runs(a, links)
            + converter::all_runs(b, links));
    }
}

/// The rich text of a block is all the runs of its spans, up to the hundred that
/// Notion takes; a block without any gets one run that is empty.
pub proof fn law_rich_text_is_all_runs(spans: Seq<SpanView>, links: LinkMapView)
    ensures
        ({
            let runs = converter::all_runs(spans, links);
            let rich = converter::rich_text_spec(spans, links);
            &&& runs.len() == 0 ==> reads_as(rich, Seq::<char>::empty(), unstyled(), None)
            &&& 0 < runs.len() <= 100 ==> rich == runs
            &&& runs.len() > 100 ==> rich == runs.take(100)
        }),
{
    if converter::all_runs(spans, links).len() == 0 {
        reveal_strlit("");
        assert(""@ =~= Seq::<char>::empty());
        assert(converter::chunks(""@) =~= seq![""@]);
        lemma_reads_as(
            Seq::<char>::empty(),
            unstyled(),
            None,
            converter::rich_text_spec(spans, links),
        );
    }
}

// ---------------------------------------------------------------------
// Blocks
// ---------------------------------------------------------------------

/// Each kind of org block becomes its own kind of Notion block with the rich
/// text of its spans; headings below the second level share one kind.
pub proof fn law_kinds_of_blocks(level: u8, spans: Seq<SpanView>, links: LinkMapView)
    ensures
        ({
            let rich_text = converter::rich_text_spec(spans, links);
            let heading = converter::block_spec(OrgBlockView::Heading { level, spans }, links);
            &&& level == 1 ==> heading == (BlockView::Heading1 { rich_text })
            &&& level == 2 ==> heading == (BlockView::Heading2 { rich_text })
            &&& level != 1 && level != 2 ==> heading == (BlockView::Heading3 { rich_text })
            &&& converter::block_spec(OrgBlockView::Paragraph { spans }, links) == (
            BlockView::Paragraph { rich_text })
            &&& converter::block_spec(OrgBlockView::BulletItem { spans }, links) == (
            BlockView::BulletedListItem { rich_text })
            &&& converter::block_spec(OrgBlockView::NumberedItem { spans }, links) == (
            BlockView::NumberedListItem { rich_text })
            &&& converter::block_spec(OrgBlockView::Quote { spans }, links) == (BlockView::Quote {
                rich_text,
            })
        }),
{
}

/// A source block becomes code that reads as its content, character for
/// character, in plain runs, all of them; without a caption.
pub proof fn law_code_is_verbatim(
    language: Option<Seq<char>>,
    content: Seq<char>,
    links: LinkMapView,
)
    ensures
        converter::block_spec(OrgBlockView::CodeBlock { language, content }, links) matches
            BlockView::Code { caption, rich_text, language: name } && reads_as(
            rich_text,
            content,
            unstyled(),
            None,
        ) && caption.len() == 0 && name == converter::code_language(language),
{
    let b = converter::block_spec(OrgBlockView::CodeBlock { language, content }, links);
    lemma_reads_as(content, unstyled(), None, b->Code_rich_text);
}

/// The language of code is what Notion calls the language of that name, up to
/// case, and plain text where there is no name or Notion knows none of it.
/// The names `sh`, `zsh`, `js`, `ts`, `py`, `rs`, `elisp` and `emacs-lisp` stand
/// for longer ones; every other name stands for itself.
pub proof fn law_code_languages(tag: Seq<char>)
    ensures
        converter::code_language(None) == "plain text"@,
        ({
            let s = text::lowercase(tag);
            let name = if s == "sh"@ || s == "zsh"@ {
                "shell"@
            } else if s == "js"@ {
                "javascript"@
            } else if s == "ts"@ {
                "typescript"@
            } else if s == "py"@ {
                "python"@
            } else if s == "rs"@ {
                "rust"@
            } else if s == "elisp"@ || s == "emacs-lisp"@ {
                "lisp"@
            } else {
                s
            };
            converter::code_language(Some(tag)) == (match converter::notion_language(name) {
                Some(known) => known,
                None => "plain text"@,
            })
        }),
{
}

/// Blocks are converted one for one and each by itself.
pub proof fn law_blocks_are_converted_in_place(bs: Seq<OrgBlockView>, i: int, links: LinkMapView)
    requires
        0 <= i < bs.len(),
    ensures
        converter::blocks_spec(bs, links).len() == bs.len(),
        converter::blocks_spec(bs, links)[i] == converter::block_spec(bs[i], links),
{
}

/// Of two steps that were added one after the other, the first is run on the
/// blocks and the second on what comes out.
pub proof fn law_steps_run_in_order<T, F: Fn(Vec<T>) -> Vec<T>, G: Fn(Vec<T>) -> Vec<T>>(
    two: Then<Then<NoSteps, F>, G>,
    input: Vec<T>,
    output: Vec<T>,
)
    ensures
        two.relates(input, output) <==> (exists|mid: Vec<T>| #[trigger]
            call_ensures(two.first.step, (input,), mid) && call_ensures(
                two.step,
                (mid,),
                output,
            )),
{
    let one = two.first;
    let f = one.step;
    let g = two.step;
    converter::lemma_then::<T, Then<NoSteps, F>, G>(two, input, output);
    assert forall|mid: Vec<T>| #[trigger] one.relates(input, mid) <==> call_ensures(
        f,
        (input,),
        mid,
    ) by {
        converter::lemma_then::<T, NoSteps, F>(one, input, mid);
        if call_ensures(f, (input,), mid) {
            assert(one.first.relates(input, input));
        }
    }
    if exists|mid: Vec<T>| #[trigger]
        call_ensures(f, (input,), mid) && call_ensures(g, (mid,), output) {
        let mid = choose|mid: Vec<T>| #[trigger]
            call_ensures(f, (input,), mid) && call_ensures(g, (mid,), output);
        assert(one.relates(input, mid));
    }
}

/// A pipeline with one step on each side runs the one on the org blocks,
/// converts what comes out, and runs the other on the Notion blocks.
pub proof fn law_pipeline_stages<
    F: Fn(Vec<OrgBlock>) -> Vec<OrgBlock>,
    G: Fn(Vec<blocks::Block>) -> Vec<blocks::Block>,
>(
    p: Converter<Then<NoSteps, F>, Then<NoSteps, G>>,
    input: Seq<OrgBlockView>,
    links: LinkMapView,
    output: Vec<blocks::Block>,
)
    requires
        p.relates(input, links, output),
    ensures
        exists|i: Vec<OrgBlock>, m: Vec<OrgBlock>, c: Vec<blocks::Block>|
            i.deep_view() == input && #[trigger] call_ensures(p.org_steps.step, (i,), m)
                && c.deep_view() == converter::blocks_spec(m.deep_view(), links)
                && #[trigger] call_ensures(p.notion_steps.step, (c,), output),
{
    let f = p.org_steps.step;
    let g = p.notion_steps.step;
    let (i, m, c) = choose|i: Vec<OrgBlock>, m: Vec<OrgBlock>, c: Vec<blocks::Block>|
        #![trigger p.org_steps.relates(i, m), p.notion_steps.relates(c, output)]
        i.deep_view() == input && p.org_steps.relates(i, m) && c.deep_view()
            == converter::blocks_spec(m.deep_view(), links) && p.notion_steps.relates(c, output);
    converter::lemma_then::<OrgBlock, NoSteps, F>(p.org_steps, i, m);
    converter::lemma_then::<blocks::Block, NoSteps, G>(p.notion_steps, c, output);
    assert(call_ensures(f, (i,), m));
    assert(call_ensures(g, (c,), output));
}

} // verus!
