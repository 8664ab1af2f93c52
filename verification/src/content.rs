//! The content of a snapshot: what links point at, what goes on each page and
//! in which order, and whether what is read back is complete.
//!
//! Content is written in two rounds. The first writes the index nodes and the
//! headings of the nodes that are merged onto a directory's page. The second
//! writes everything else, the content of a merged node right behind its
//! heading.

use crate::blocks::{Block, BlockView};
use crate::converter;
use crate::converter::{Converter, LinkMap, LinkMapView, LinkTarget, LinkTargetView, Steps};
use crate::layout;
use crate::layout::Placement;
use crate::notion::{JobView, PageJob, PageWriter, Write, WriteView};
use crate::org_parser;
use crate::org_parser::{Node, NodeView, OrgBlock, OrgBlockView, Span, SpanView};
use crate::path::{PathView, VaultPath};
use crate::ports::{AppendPosition, NotionError, PositionView};
use crate::run::{RunError, RunErrorView};
use crate::text;
use crate::transformers;
use crate::transformers::{anchors_to_bold, warning_callout};
use crate::validate;
use crate::validate::{FoundLinks, FoundView, PostValidationResult, ResultView};
use crate::vault::{Vault, VaultView};
use vstd::prelude::*;

verus! {

// ---------------------------------------------------------------------
// Links
// ---------------------------------------------------------------------

/// What a link to the `i`th node points at: the page it is on, or, where the
/// node is merged and the block of its heading is given, that block.
pub open spec fn target_of(
    v: VaultView,
    root: PathView,
    page_ids: Seq<Seq<char>>,
    headings: Seq<Option<Seq<char>>>,
    i: int,
) -> LinkTargetView {
    let n = v.nodes[i];
    if layout::placed(v, root, n) == Placement::Merged && headings[i] is Some {
        LinkTargetView::Block {
            page_id: page_ids[i],
            url: "https://notion.so/"@ + page_ids[i] + "#"@ + headings[i]->0,
            text: n.title,
        }
    } else {
        LinkTargetView::Page(page_ids[i])
    }
}

/// The targets of links to the first `k` nodes, by ID.
pub open spec fn link_map_spec(
    v: VaultView,
    root: PathView,
    page_ids: Seq<Seq<char>>,
    headings: Seq<Option<Seq<char>>>,
    k: int,
) -> LinkMapView
    decreases k,
{
    if k <= 0 {
        Map::<Seq<char>, LinkTargetView>::empty()
    } else {
        link_map_spec(v, root, page_ids, headings, k - 1).insert(
            v.nodes[k - 1].id,
            target_of(v, root, page_ids, headings, k - 1),
        )
    }
}

/// Maps the ID of every node to what links to it point at.
pub fn build_link_map(
    v: &Vault,
    vault_dir: &VaultPath,
    page_ids: &Vec<String>,
    headings: &Vec<Option<String>>,
) -> (r: LinkMap)
    requires
        page_ids@.len() == v.nodes@.len(),
        headings@.len() == v.nodes@.len(),
    ensures
        r.map() == link_map_spec(
            v.deep_view(),
            vault_dir.deep_view(),
            page_ids.deep_view(),
            headings.deep_view(),
            v.deep_view().nodes.len() as int,
        ),
{
    let ghost vv = v.deep_view();
    let ghost root = vault_dir.deep_view();
    let ghost ids = page_ids.deep_view();
    let ghost hs = headings.deep_view();
    let mut links: LinkMap = LinkMap::new();
    let mut i: usize = 0;
    while i < v.nodes.len()
        invariant
            vv == v.deep_view(),
            root == vault_dir.deep_view(),
            ids == page_ids.deep_view(),
            hs == headings.deep_view(),
            page_ids@.len() == v.nodes@.len(),
            headings@.len() == v.nodes@.len(),
            i <= v.nodes@.len(),
            links.map() == link_map_spec(vv, root, ids, hs, i as int),
        decreases v.nodes.len() - i,
    {
        proof {
            assert(vv.nodes[i as int] == v.nodes[i as int].deep_view());
            assert(ids[i as int] == page_ids[i as int]@);
            assert(hs[i as int] == headings[i as int].deep_view());
        }
        let page_id: String = page_ids[i].clone();
        let merged: bool = match layout::placement(v, vault_dir, &v.nodes[i]) {
            Placement::Merged => true,
            _ => false,
        };
        let target: LinkTarget = match &headings[i] {
            Some(block_id) if merged => {
                let mut url: String = text::concat2("https://notion.so/", page_id.as_str());
                url.append("#");
                url.append(block_id.as_str());
                LinkTarget::Block { page_id, url, text: v.nodes[i].title.clone() }
            },
            _ => LinkTarget::Page(page_id),
        };
        links.insert(v.nodes[i].id.clone(), target);
        i = i + 1;
    }
    links
}

/// No heading blocks at all.
pub open spec fn no_headings(n: nat) -> Seq<Option<Seq<char>>> {
    Seq::new(n, |i: int| None::<Seq<char>>)
}

/// The targets of the links of a snapshot: every link mentions the page that
/// its node is on.
pub open spec fn page_links(v: VaultView, root: PathView, page_ids: Seq<Seq<char>>) -> LinkMapView {
    link_map_spec(
        v,
        root,
        page_ids,
        no_headings(v.nodes.len()),
        v.nodes.len() as int,
    )
}

/// Maps the ID of every node to the page that it is on.
pub fn snapshot_links(v: &Vault, vault_dir: &VaultPath, page_ids: &Vec<String>) -> (r: LinkMap)
    requires
        page_ids@.len() == v.nodes@.len(),
    ensures
        r.map() == page_links(v.deep_view(), vault_dir.deep_view(), page_ids.deep_view()),
{
    let headings: Vec<Option<String>> = empty_headings(v.nodes.len());
    build_link_map(v, vault_dir, page_ids, &headings)
}

/// A list of heading blocks with none known.
pub fn empty_headings(n: usize) -> (r: Vec<Option<String>>)
    ensures
        r.deep_view() == no_headings(n as nat),
        r@.len() == n,
{
    let mut out: Vec<Option<String>> = Vec::new();
    let mut i: usize = 0;
    while i < n
        invariant
            i <= n,
            out@.len() == i,
            out.deep_view() == no_headings(i as nat),
        decreases n - i,
    {
        let ghost before = out.deep_view();
        out.push(None);
        assert(out.deep_view() =~= before.push(None::<Seq<char>>));
        i = i + 1;
        assert(out.deep_view() =~= no_headings(i as nat));
    }
    assert(out.deep_view() =~= no_headings(n as nat));
    out
}

// ---------------------------------------------------------------------
// The blocks of a node
// ---------------------------------------------------------------------

/// Org blocks as they go to Notion: converted, with targets in bold.
pub open spec fn rendered(bs: Seq<OrgBlockView>, links: LinkMapView) -> Seq<BlockView> {
    transformers::all_anchored(converter::blocks_spec(bs, links))
}

/// The content of a node: its blocks, behind a warning where the node is
/// tagged as unreviewed.
pub open spec fn content_of(n: NodeView, links: LinkMapView) -> Seq<BlockView> {
    if org_parser::carries_tag(n, "unreviewed"@) {
        seq![transformers::warning_spec()] + rendered(n.blocks, links)
    } else {
        rendered(n.blocks, links)
    }
}

/// The heading that introduces a merged node.
pub open spec fn heading_of(n: NodeView) -> Seq<BlockView> {
    rendered(
        seq![OrgBlockView::Heading { level: 1, spans: seq![SpanView::Text(n.title)] }],
        Map::<Seq<char>, LinkTargetView>::empty(),
    )
}

fn render(org_blocks: &[OrgBlock], links: &LinkMap) -> (r: Vec<Block>)
    ensures
        r.deep_view() == rendered(org_blocks.deep_view(), links.map()),
{
    let pipeline = Converter::new().with_notion_transformer(anchors_to_bold);
    proof {
        assert forall|c: Vec<Block>| #[trigger] pipeline.notion_steps.accepts(c) by {
            converter::lemma_then(pipeline.notion_steps, c, c);
            assert forall|mid: Vec<Block>| #[trigger]
                pipeline.notion_steps.first.relates(c, mid) implies call_requires(
                pipeline.notion_steps.step,
                (mid,),
            ) by {}
        }
    }
    let out: Vec<Block> = pipeline.convert(org_blocks, links);
    proof {
        let input = org_blocks.deep_view();
        let (i, m, c) = choose|i: Vec<OrgBlock>, m: Vec<OrgBlock>, c: Vec<Block>|
            #![trigger pipeline.org_steps.relates(i, m), pipeline.notion_steps.relates(c, out)]
            i.deep_view() == input && pipeline.org_steps.relates(i, m) && c.deep_view()
                == converter::blocks_spec(m.deep_view(), links.map())
                && pipeline.notion_steps.relates(c, out);
        converter::lemma_then(pipeline.notion_steps, c, out);
        let mid = choose|mid: Vec<Block>| #[trigger]
            pipeline.notion_steps.first.relates(c, mid) && call_ensures(
                pipeline.notion_steps.step,
                (mid,),
                out,
            );
        assert(out.deep_view() == transformers::all_anchored(mid.deep_view()));
    }
    out
}

/// The content of a node as it goes to Notion.
pub fn node_content(node: &Node, links: &LinkMap) -> (r: Vec<Block>)
    ensures
        r.deep_view() == content_of(node.deep_view(), links.map()),
{
    let mut body: Vec<Block> = render(node.blocks.as_slice(), links);
    if node.has_tag("unreviewed") {
        let ghost rest = body.deep_view();
        let callout: Block = warning_callout();
        body.insert(0, callout);
        assert(body.deep_view() =~= seq![callout.deep_view()] + rest);
    }
    body
}

/// The heading that introduces a merged node.
pub fn node_heading(node: &Node) -> (r: Vec<Block>)
    ensures
        r.deep_view() == heading_of(node.deep_view()),
{
    let mut spans: Vec<Span> = Vec::new();
    spans.push(Span::Text(node.title.clone()));
    assert(spans.deep_view() =~= seq![SpanView::Text(node.title@)]);
    let mut heading: Vec<OrgBlock> = Vec::new();
    heading.push(OrgBlock::Heading { level: 1, spans });
    assert(heading.deep_view() =~= seq![
        OrgBlockView::Heading { level: 1, spans: seq![SpanView::Text(node.title@)] },
    ]);
    render(heading.as_slice(), &LinkMap::new())
}

// ---------------------------------------------------------------------
// The nodes of each page
// ---------------------------------------------------------------------

/// The nodes that go on one page, in order.
pub struct PageGroup {
    pub page_id: String,
    pub nodes: Vec<usize>,
}

/// The model of a group.
pub struct GroupView {
    pub page_id: Seq<char>,
    pub nodes: Seq<int>,
}

impl DeepView for PageGroup {
    type V = GroupView;

    open spec fn deep_view(&self) -> GroupView {
        GroupView {
            page_id: self.page_id@,
            nodes: self.nodes@.map_values(|i: usize| i as int),
        }
    }
}

/// The first position of a page's group, or the number of groups.
pub open spec fn group_index(groups: Seq<GroupView>, page_id: Seq<char>) -> int
    decreases groups.len(),
{
    if groups.len() == 0 || groups.first().page_id == page_id {
        0
    } else {
        1 + group_index(groups.drop_first(), page_id)
    }
}

/// The groups with one more node.
pub open spec fn with_node(groups: Seq<GroupView>, page_id: Seq<char>, i: int) -> Seq<GroupView> {
    let g = group_index(groups, page_id);
    if 0 <= g < groups.len() {
        groups.update(g, GroupView { page_id: groups[g].page_id, nodes: groups[g].nodes.push(i) })
    } else {
        groups.push(GroupView { page_id, nodes: seq![i] })
    }
}

/// The nodes in `some` by the page that they go on, the pages in the order in
/// which they first occur.
pub open spec fn grouped(some: Seq<int>, page_ids: Seq<Seq<char>>) -> Seq<GroupView>
    decreases some.len(),
{
    if some.len() == 0 {
        Seq::<GroupView>::empty()
    } else {
        with_node(grouped(some.drop_last(), page_ids), page_ids[some.last()], some.last())
    }
}

/// Which nodes a round of writing is about.
#[derive(Debug, Clone, Copy, PartialEq, Eq, Structural)]
pub enum Round {
    /// The nodes that are on a directory's page.
    Headings,
    /// The nodes that are not index nodes.
    Content,
}

/// Whether a round is about a node.
pub open spec fn in_round(v: VaultView, root: PathView, round: Round, i: int) -> bool {
    match round {
        Round::Headings => layout::placed(v, root, v.nodes[i]) != Placement::Paged,
        Round::Content => layout::placed(v, root, v.nodes[i]) != Placement::Index,
    }
}

/// The nodes in `some` that a round is about.
pub open spec fn round_nodes(v: VaultView, root: PathView, round: Round, some: Seq<int>) -> Seq<int>
    decreases some.len(),
{
    if some.len() == 0 {
        some
    } else {
        let head = round_nodes(v, root, round, some.drop_last());
        if in_round(v, root, round, some.last()) {
            head.push(some.last())
        } else {
            head
        }
    }
}

/// The groups of a round, in the order in which the nodes are shown.
pub open spec fn round_groups(
    v: VaultView,
    root: PathView,
    round: Round,
    page_ids: Seq<Seq<char>>,
) -> Seq<GroupView> {
    grouped(round_nodes(v, root, round, layout::display_order(v, root)), page_ids)
}

/// Whether the nodes of groups are among the first `n`.
pub open spec fn groups_below(groups: Seq<GroupView>, n: int) -> bool {
    forall|g: int, k: int|
        0 <= g < groups.len() && 0 <= k < groups[g].nodes.len() ==> 0
            <= #[trigger] groups[g].nodes[k] < n
}

fn find_group(groups: &Vec<PageGroup>, page_id: &str) -> (r: usize)
    ensures
        r == group_index(groups.deep_view(), page_id@),
        r <= groups@.len(),
{
    let ghost all = groups.deep_view();
    let mut i: usize = 0;
    assert(all.skip(0) =~= all);
    while i < groups.len()
        invariant
            all == groups.deep_view(),
            i <= groups@.len(),
            group_index(all, page_id@) == i + group_index(all.skip(i as int), page_id@),
        decreases groups.len() - i,
    {
        assert(all.skip(i as int).first() == groups[i as int].deep_view());
        if text::same_text(groups[i].page_id.as_str(), page_id) {
            return i;
        }
        assert(all.skip(i as int).drop_first() =~= all.skip(i + 1));
        i = i + 1;
    }
    i
}

fn add_to_groups(groups: Vec<PageGroup>, page_id: &String, i: usize) -> (r: Vec<PageGroup>)
    ensures
        r.deep_view() == with_node(groups.deep_view(), page_id@, i as int),
{
    let mut groups: Vec<PageGroup> = groups;
    let ghost before = groups.deep_view();
    let g: usize = find_group(&groups, page_id.as_str());
    if g < groups.len() {
        assert(before[g as int] == groups[g as int].deep_view());
        let mut group: PageGroup = groups.remove(g);
        let ghost was = group.deep_view();
        group.nodes.push(i);
        assert(group.deep_view().nodes =~= was.nodes.push(i as int));
        groups.insert(g, group);
        assert(groups.deep_view() =~= with_node(before, page_id@, i as int));
    } else {
        let mut nodes: Vec<usize> = Vec::new();
        nodes.push(i);
        let group: PageGroup = PageGroup { page_id: page_id.clone(), nodes };
        assert(group.deep_view().nodes =~= seq![i as int]);
        groups.push(group);
        assert(groups.deep_view() =~= with_node(before, page_id@, i as int));
    }
    groups
}

proof fn lemma_groups_below(some: Seq<int>, page_ids: Seq<Seq<char>>, n: int)
    requires
        forall|k: int| 0 <= k < some.len() ==> 0 <= #[trigger] some[k] < n,
    ensures
        groups_below(grouped(some, page_ids), n),
    decreases some.len(),
{
    if some.len() > 0 {
        let head = some.drop_last();
        assert forall|k: int| 0 <= k < head.len() implies 0 <= #[trigger] head[k] < n by {
            assert(head[k] == some[k]);
        }
        lemma_groups_below(head, page_ids, n);
        let groups = grouped(head, page_ids);
        let x = some.last();
        assert(x == some[some.len() - 1]);
        let g = group_index(groups, page_ids[x]);
        let all = grouped(some, page_ids);
        assert forall|h: int, k: int|
            0 <= h < all.len() && 0 <= k < all[h].nodes.len() implies 0
            <= #[trigger] all[h].nodes[k] < n by {
            if 0 <= g < groups.len() {
                if h != g || k < groups[g].nodes.len() {
                    assert(all[h].nodes[k] == groups[h].nodes[k]);
                }
            } else if h < groups.len() {
                assert(all[h].nodes[k] == groups[h].nodes[k]);
            }
        }
    }
}

/// The nodes of a round by the page that they go on, in the order in which
/// they are shown.
pub fn group_by_page(
    v: &Vault,
    vault_dir: &VaultPath,
    page_ids: &Vec<String>,
    sorted: &Vec<usize>,
    round: Round,
) -> (r: Vec<PageGroup>)
    requires
        page_ids@.len() == v.nodes@.len(),
        forall|k: int| 0 <= k < sorted@.len() ==> #[trigger] sorted@[k] < v.nodes@.len(),
    ensures
        r.deep_view() == grouped(
            round_nodes(
                v.deep_view(),
                vault_dir.deep_view(),
                round,
                sorted@.map_values(|i: usize| i as int),
            ),
            page_ids.deep_view(),
        ),
        groups_below(r.deep_view(), v.nodes@.len() as int),
{
    let ghost vv = v.deep_view();
    let ghost root = vault_dir.deep_view();
    let ghost ids = page_ids.deep_view();
    let ghost all = sorted@.map_values(|i: usize| i as int);
    let mut groups: Vec<PageGroup> = Vec::new();
    let mut k: usize = 0;
    assert(groups.deep_view() =~= Seq::<GroupView>::empty());
    assert(round_nodes(vv, root, round, all.take(0)) =~= Seq::<int>::empty());
    while k < sorted.len()
        invariant
            vv == v.deep_view(),
            root == vault_dir.deep_view(),
            ids == page_ids.deep_view(),
            all == sorted@.map_values(|i: usize| i as int),
            page_ids@.len() == v.nodes@.len(),
            forall|k: int| 0 <= k < sorted@.len() ==> #[trigger] sorted@[k] < v.nodes@.len(),
            k <= sorted@.len(),
            groups.deep_view() == grouped(round_nodes(vv, root, round, all.take(k as int)), ids),
            forall|j: int|
                0 <= j < round_nodes(vv, root, round, all.take(k as int)).len() ==> 0
                    <= #[trigger] round_nodes(vv, root, round, all.take(k as int))[j]
                    < v.nodes@.len(),
        decreases sorted.len() - k,
    {
        let i: usize = sorted[k];
        let ghost head = round_nodes(vv, root, round, all.take(k as int));
        proof {
            assert(all.take(k + 1).drop_last() =~= all.take(k as int));
            assert(all.take(k + 1).last() == i);
            assert(vv.nodes[i as int] == v.nodes[i as int].deep_view());
            assert(ids[i as int] == page_ids[i as int]@);
        }
        let place: Placement = layout::placement(v, vault_dir, &v.nodes[i]);
        let wanted: bool = match round {
            Round::Headings => match place {
                Placement::Paged => false,
                _ => true,
            },
            Round::Content => match place {
                Placement::Index => false,
                _ => true,
            },
        };
        if wanted {
            groups = add_to_groups(groups, &page_ids[i], i);
            proof {
                assert(head.push(i as int).drop_last() =~= head);
            }
        }
        k = k + 1;
    }
    assert(all.take(k as int) =~= all);
    proof {
        lemma_groups_below(round_nodes(vv, root, round, all), ids, v.nodes@.len() as int);
    }
    groups
}

// ---------------------------------------------------------------------
// The writes of each page
// ---------------------------------------------------------------------

/// Where the content of the `i`th node goes on its page: behind its heading
/// where it has one, else to the end.
pub open spec fn content_position(
    v: VaultView,
    root: PathView,
    headings: Seq<Option<Seq<char>>>,
    i: int,
) -> PositionView {
    if layout::placed(v, root, v.nodes[i]) == Placement::Merged && headings[i] is Some {
        PositionView::After { after_id: headings[i]->0 }
    } else {
        PositionView::End
    }
}

/// What a round writes for the `i`th node.
pub open spec fn write_of(
    v: VaultView,
    root: PathView,
    round: Round,
    links: LinkMapView,
    headings: Seq<Option<Seq<char>>>,
    i: int,
) -> WriteView {
    let n = v.nodes[i];
    match round {
        Round::Headings => if layout::placed(v, root, n) == Placement::Index {
            WriteView {
                node: i,
                heading: false,
                blocks: content_of(n, links),
                position: PositionView::End,
            }
        } else {
            WriteView {
                node: i,
                heading: true,
                blocks: heading_of(n),
                position: PositionView::End,
            }
        },
        Round::Content => WriteView {
            node: i,
            heading: false,
            blocks: content_of(n, links),
            position: content_position(v, root, headings, i),
        },
    }
}

/// What a round writes on one page.
pub open spec fn job_of(
    v: VaultView,
    root: PathView,
    round: Round,
    links: LinkMapView,
    headings: Seq<Option<Seq<char>>>,
    g: GroupView,
) -> JobView {
    JobView {
        page_id: g.page_id,
        writes: g.nodes.map_values(|i: int| write_of(v, root, round, links, headings, i)),
    }
}

/// What a round writes, page by page.
pub open spec fn round_jobs(
    v: VaultView,
    root: PathView,
    round: Round,
    page_ids: Seq<Seq<char>>,
    links: LinkMapView,
    headings: Seq<Option<Seq<char>>>,
) -> Seq<JobView> {
    round_groups(v, root, round, page_ids).map_values(
        |g: GroupView| job_of(v, root, round, links, headings, g),
    )
}

fn make_write(
    v: &Vault,
    vault_dir: &VaultPath,
    round: Round,
    links: &LinkMap,
    headings: &Vec<Option<String>>,
    i: usize,
) -> (r: Write)
    requires
        i < v.nodes@.len(),
        headings@.len() == v.nodes@.len(),
    ensures
        r.deep_view() == write_of(
            v.deep_view(),
            vault_dir.deep_view(),
            round,
            links.map(),
            headings.deep_view(),
            i as int,
        ),
        r.node == i,
{
    assert(v.deep_view().nodes[i as int] == v.nodes[i as int].deep_view());
    assert(headings.deep_view()[i as int] == headings[i as int].deep_view());
    let place: Placement = layout::placement(v, vault_dir, &v.nodes[i]);
    match round {
        Round::Headings => match place {
            Placement::Index => Write {
                node: i,
                heading: false,
                blocks: node_content(&v.nodes[i], links),
                position: AppendPosition::End,
            },
            _ => Write {
                node: i,
                heading: true,
                blocks: node_heading(&v.nodes[i]),
                position: AppendPosition::End,
            },
        },
        Round::Content => {
            let merged: bool = match place {
                Placement::Merged => true,
                _ => false,
            };
            let position: AppendPosition = match &headings[i] {
                Some(id) if merged => AppendPosition::After { after_id: id.clone() },
                _ => AppendPosition::End,
            };
            Write { node: i, heading: false, blocks: node_content(&v.nodes[i], links), position }
        },
    }
}

fn make_job(
    v: &Vault,
    vault_dir: &VaultPath,
    round: Round,
    links: &LinkMap,
    headings: &Vec<Option<String>>,
    group: &PageGroup,
) -> (r: PageJob)
    requires
        headings@.len() == v.nodes@.len(),
        forall|k: int|
            0 <= k < group.deep_view().nodes.len() ==> 0 <= #[trigger] group.deep_view().nodes[k]
                < v.nodes@.len(),
    ensures
        r.deep_view() == job_of(
            v.deep_view(),
            vault_dir.deep_view(),
            round,
            links.map(),
            headings.deep_view(),
            group.deep_view(),
        ),
{
    let ghost vv = v.deep_view();
    let ghost root = vault_dir.deep_view();
    let ghost hs = headings.deep_view();
    let ghost target = job_of(vv, root, round, links.map(), hs, group.deep_view());
    let mut writes: Vec<Write> = Vec::new();
    let mut k: usize = 0;
    while k < group.nodes.len()
        invariant
            vv == v.deep_view(),
            root == vault_dir.deep_view(),
            hs == headings.deep_view(),
            target == job_of(vv, root, round, links.map(), hs, group.deep_view()),
            headings@.len() == v.nodes@.len(),
            forall|k: int|
                0 <= k < group.deep_view().nodes.len() ==> 0
                    <= #[trigger] group.deep_view().nodes[k] < v.nodes@.len(),
            k <= group.nodes@.len(),
            writes.deep_view() == target.writes.take(k as int),
        decreases group.nodes.len() - k,
    {
        let ghost before = writes.deep_view();
        let i: usize = group.nodes[k];
        assert(group.deep_view().nodes[k as int] == i);
        let w: Write = make_write(v, vault_dir, round, links, headings, i);
        writes.push(w);
        assert(writes.deep_view() =~= before.push(w.deep_view()));
        k = k + 1;
    }
    assert(target.writes.take(k as int) =~= target.writes);
    PageJob { page_id: group.page_id.clone(), writes }
}

/// What a round writes, page by page. `headings` holds for each node the block
/// of its heading, as far as it is known.
pub fn make_jobs(
    v: &Vault,
    vault_dir: &VaultPath,
    round: Round,
    page_ids: &Vec<String>,
    links: &LinkMap,
    headings: &Vec<Option<String>>,
) -> (r: Vec<PageJob>)
    requires
        page_ids@.len() == v.nodes@.len(),
        headings@.len() == v.nodes@.len(),
    ensures
        r.deep_view() == round_jobs(
            v.deep_view(),
            vault_dir.deep_view(),
            round,
            page_ids.deep_view(),
            links.map(),
            headings.deep_view(),
        ),
{
    let ghost vv = v.deep_view();
    let ghost root = vault_dir.deep_view();
    let ghost hs = headings.deep_view();
    let ghost target = round_jobs(vv, root, round, page_ids.deep_view(), links.map(), hs);
    let sorted: Vec<usize> = layout::sorted_nodes(v, vault_dir);
    let groups: Vec<PageGroup> = group_by_page(v, vault_dir, page_ids, &sorted, round);
    let ghost gs = groups.deep_view();
    assert(gs == round_groups(vv, root, round, page_ids.deep_view()));
    let mut jobs: Vec<PageJob> = Vec::new();
    let mut g: usize = 0;
    while g < groups.len()
        invariant
            vv == v.deep_view(),
            root == vault_dir.deep_view(),
            hs == headings.deep_view(),
            gs == groups.deep_view(),
            gs == round_groups(vv, root, round, page_ids.deep_view()),
            target == round_jobs(vv, root, round, page_ids.deep_view(), links.map(), hs),
            headings@.len() == v.nodes@.len(),
            groups_below(gs, v.nodes@.len() as int),
            g <= groups@.len(),
            jobs.deep_view() == target.take(g as int),
        decreases groups.len() - g,
    {
        let ghost before = jobs.deep_view();
        proof {
            assert(gs[g as int] == groups[g as int].deep_view());
            assert forall|k: int|
                0 <= k < groups[g as int].deep_view().nodes.len() implies 0
                <= #[trigger] groups[g as int].deep_view().nodes[k] < v.nodes@.len() by {
                assert(0 <= gs[g as int].nodes[k] < v.nodes@.len());
            }
        }
        let job: PageJob = make_job(v, vault_dir, round, links, headings, &groups[g]);
        jobs.push(job);
        assert(jobs.deep_view() =~= before.push(job.deep_view()));
        g = g + 1;
    }
    assert(target.take(g as int) =~= target);
    jobs
}

proof fn lemma_round_nodes_below(
    v: VaultView,
    root: PathView,
    round: Round,
    some: Seq<int>,
    n: int,
)
    requires
        forall|k: int| 0 <= k < some.len() ==> 0 <= #[trigger] some[k] < n,
    ensures
        forall|k: int|
            0 <= k < round_nodes(v, root, round, some).len() ==> 0 <= #[trigger] round_nodes(
                v,
                root,
                round,
                some,
            )[k] < n,
    decreases some.len(),
{
    if some.len() > 0 {
        let head = some.drop_last();
        assert forall|k: int| 0 <= k < head.len() implies 0 <= #[trigger] head[k] < n by {
            assert(head[k] == some[k]);
        }
        lemma_round_nodes_below(v, root, round, head, n);
        let before = round_nodes(v, root, round, head);
        let all = round_nodes(v, root, round, some);
        assert(some.last() == some[some.len() - 1]);
        assert forall|k: int| 0 <= k < all.len() implies 0 <= #[trigger] all[k] < n by {
            if k < before.len() {
                assert(all[k] == before[k]);
            }
        }
    }
}

/// Every write of a round is for a node of the vault.
pub proof fn lemma_job_nodes(
    v: VaultView,
    root: PathView,
    round: Round,
    page_ids: Seq<Seq<char>>,
    links: LinkMapView,
    headings: Seq<Option<Seq<char>>>,
    g: int,
    k: int,
)
    requires
        0 <= g < round_jobs(v, root, round, page_ids, links, headings).len(),
        0 <= k < round_jobs(v, root, round, page_ids, links, headings)[g].writes.len(),
    ensures
        0 <= round_jobs(v, root, round, page_ids, links, headings)[g].writes[k].node
            < v.nodes.len(),
{
    let n = v.nodes.len() as int;
    let order = layout::display_order(v, root);
    layout::law_every_node_shown_once(v, root);
    assert forall|j: int| 0 <= j < order.len() implies 0 <= #[trigger] order[j] < n by {
        assert(order.contains(order[j]));
    }
    lemma_round_nodes_below(v, root, round, order, n);
    lemma_groups_below(round_nodes(v, root, round, order), page_ids, n);
    let groups = round_groups(v, root, round, page_ids);
    assert(0 <= groups[g].nodes[k] < n);
}

/// The heading blocks known after the first `k` writes of a page.
pub open spec fn headings_after(
    headings: Seq<Option<Seq<char>>>,
    writes: Seq<WriteView>,
    first_ids: Seq<Option<Seq<char>>>,
    k: int,
) -> Seq<Option<Seq<char>>>
    decreases k,
{
    if k <= 0 {
        headings
    } else {
        let before = headings_after(headings, writes, first_ids, k - 1);
        let w = writes[k - 1];
        if w.heading && 0 <= w.node < before.len() {
            before.update(w.node, first_ids[k - 1])
        } else {
            before
        }
    }
}

/// Notes the blocks of the headings that a writer has written.
pub fn record_headings(headings: &mut Vec<Option<String>>, writer: &PageWriter)
    requires
        writer.first_ids@.len() <= writer.job.writes@.len(),
    ensures
        final(headings).deep_view() == headings_after(
            old(headings).deep_view(),
            writer.job.writes.deep_view(),
            writer.first_ids.deep_view(),
            writer.first_ids@.len() as int,
        ),
        final(headings)@.len() == old(headings)@.len(),
{
    let ghost start = headings.deep_view();
    let ghost writes = writer.job.writes.deep_view();
    let ghost firsts = writer.first_ids.deep_view();
    let mut k: usize = 0;
    while k < writer.first_ids.len()
        invariant
            writes == writer.job.writes.deep_view(),
            firsts == writer.first_ids.deep_view(),
            writer.first_ids@.len() <= writer.job.writes@.len(),
            k <= writer.first_ids@.len(),
            headings@.len() == old(headings)@.len(),
            headings.deep_view() == headings_after(start, writes, firsts, k as int),
        decreases writer.first_ids.len() - k,
    {
        let ghost before = headings.deep_view();
        proof {
            assert(writes[k as int] == writer.job.writes[k as int].deep_view());
            assert(firsts[k as int] == writer.first_ids[k as int].deep_view());
        }
        let node: usize = writer.job.writes[k].node;
        if writer.job.writes[k].heading && node < headings.len() {
            let id: Option<String> = writer.first_ids[k].clone();
            headings.set(node, id);
            assert(headings.deep_view() =~= before.update(node as int, firsts[k as int]));
        }
        k = k + 1;
    }
}

/// The number of content blocks among writes: headings that only introduce a
/// node are not counted.
pub open spec fn content_count(writes: Seq<WriteView>) -> nat
    decreases writes.len(),
{
    if writes.len() == 0 {
        0
    } else {
        let w = writes.last();
        content_count(writes.drop_last()) + (if w.heading {
            0
        } else {
            w.blocks.len()
        })
    }
}

/// The number of content blocks among jobs.
pub open spec fn jobs_count(jobs: Seq<JobView>) -> nat
    decreases jobs.len(),
{
    if jobs.len() == 0 {
        0
    } else {
        jobs_count(jobs.drop_last()) + content_count(jobs.last().writes)
    }
}

/// The sum of two counts, as far as it can be counted.
pub open spec fn capped_sum(a: nat, b: nat) -> nat {
    if a + b <= usize::MAX {
        a + b
    } else {
        usize::MAX as nat
    }
}

/// Counts the content blocks of a job, on top of `counted`.
pub fn count_blocks(counted: usize, job: &PageJob) -> (r: usize)
    ensures
        r == capped_sum(counted as nat, content_count(job.deep_view().writes)),
{
    let ghost all = job.writes.deep_view();
    let mut n: usize = counted;
    let mut k: usize = 0;
    while k < job.writes.len()
        invariant
            all == job.writes.deep_view(),
            k <= job.writes@.len(),
            n == capped_sum(counted as nat, content_count(all.take(k as int))),
        decreases job.writes.len() - k,
    {
        proof {
            assert(all.take(k + 1).drop_last() =~= all.take(k as int));
            assert(all.take(k + 1).last() == job.writes[k as int].deep_view());
        }
        if !job.writes[k].heading {
            let more: usize = job.writes[k].blocks.len();
            n = if more > usize::MAX - n {
                usize::MAX
            } else {
                n + more
            };
        }
        k = k + 1;
    }
    assert(all.take(k as int) =~= all);
    n
}

/// How the run fails if a write fails.
pub open spec fn write_failure_text(heading: bool, title: Seq<char>) -> Seq<char> {
    if heading {
        "failed to write heading for node "@ + text::debug_quoted(title)
    } else {
        "failed to write content for node "@ + text::debug_quoted(title)
    }
}

/// How the run fails if a write for the node fails.
pub fn write_failure(node: &Node, heading: bool, source: NotionError, root_url: &str) -> (r:
    RunError)
    ensures
        r.deep_view() == (RunErrorView::Api {
            context: write_failure_text(heading, node.title@),
            source: source.deep_view(),
            root_url: Some(root_url@),
        }),
{
    let title: String = text::debug_quote(node.title.as_str());
    let context: String = if heading {
        text::concat2("failed to write heading for node ", title.as_str())
    } else {
        text::concat2("failed to write content for node ", title.as_str())
    };
    RunError::Api { context, source, root_url: Some(root_url.to_owned()) }
}

// ---------------------------------------------------------------------
// Reading back
// ---------------------------------------------------------------------

/// Whether every node is on a page.
pub open spec fn all_linked(nodes: Seq<NodeView>, links: LinkMapView) -> bool {
    forall|i: int| 0 <= i < nodes.len() ==> links.dom().contains(#[trigger] nodes[i].id)
}

/// The page that a node is on.
pub open spec fn page_of(n: NodeView, links: LinkMapView) -> Seq<char> {
    validate::target_page(links[n.id])
}

/// The pages of the first `k` nodes, each once, with the first node on it.
pub open spec fn pages_to_read(nodes: Seq<NodeView>, links: LinkMapView, k: int) -> Seq<
    (Seq<char>, int),
>
    decreases k,
{
    if k <= 0 {
        Seq::<(Seq<char>, int)>::empty()
    } else {
        let head = pages_to_read(nodes, links, k - 1);
        let page = page_of(nodes[k - 1], links);
        if page_index(head, page) < head.len() {
            head
        } else {
            head.push((page, k - 1))
        }
    }
}

/// The first position of a page, or the number of pages.
pub open spec fn page_index(pages: Seq<(Seq<char>, int)>, page: Seq<char>) -> int
    decreases pages.len(),
{
    if pages.len() == 0 || pages.first().0 == page {
        0
    } else {
        1 + page_index(pages.drop_first(), page)
    }
}

/// A page to read back.
pub struct PageRead {
    pub page_id: String,
    /// The first node on the page.
    pub node: usize,
}

impl DeepView for PageRead {
    type V = (Seq<char>, int);

    open spec fn deep_view(&self) -> (Seq<char>, int) {
        (self.page_id@, self.node as int)
    }
}

fn find_page(pages: &Vec<PageRead>, page_id: &str) -> (r: usize)
    ensures
        r == page_index(pages.deep_view(), page_id@),
        r <= pages@.len(),
{
    let ghost all = pages.deep_view();
    let mut i: usize = 0;
    assert(all.skip(0) =~= all);
    while i < pages.len()
        invariant
            all == pages.deep_view(),
            i <= pages@.len(),
            page_index(all, page_id@) == i + page_index(all.skip(i as int), page_id@),
        decreases pages.len() - i,
    {
        assert(all.skip(i as int).first() == pages[i as int].deep_view());
        if text::same_text(pages[i].page_id.as_str(), page_id) {
            return i;
        }
        assert(all.skip(i as int).drop_first() =~= all.skip(i + 1));
        i = i + 1;
    }
    i
}

fn page_id_of(node: &Node, links: &LinkMap) -> (r: String)
    requires
        links.map().dom().contains(node.id@),
    ensures
        r@ == page_of(node.deep_view(), links.map()),
{
    match links.get(node.id.as_str()) {
        Some(t) => validate::page_of_target(t).to_owned(),
        None => String::new(),
    }
}

/// The pages to read back: each page once, though several nodes are on it.
pub fn validation_pages(v: &Vault, links: &LinkMap) -> (r: Vec<PageRead>)
    requires
        all_linked(v.nodes.deep_view(), links.map()),
    ensures
        r.deep_view() == pages_to_read(
            v.nodes.deep_view(),
            links.map(),
            v.nodes.deep_view().len() as int,
        ),
{
    let ghost nodes = v.nodes.deep_view();
    let mut pages: Vec<PageRead> = Vec::new();
    let mut i: usize = 0;
    assert(pages.deep_view() =~= pages_to_read(nodes, links.map(), 0));
    while i < v.nodes.len()
        invariant
            nodes == v.nodes.deep_view(),
            all_linked(nodes, links.map()),
            i <= v.nodes@.len(),
            pages.deep_view() == pages_to_read(nodes, links.map(), i as int),
        decreases v.nodes.len() - i,
    {
        let ghost before = pages.deep_view();
        assert(nodes[i as int] == v.nodes[i as int].deep_view());
        assert(links.map().dom().contains(nodes[i as int].id));
        let page_id: String = page_id_of(&v.nodes[i], links);
        if find_page(&pages, page_id.as_str()) >= pages.len() {
            let read: PageRead = PageRead { page_id, node: i };
            pages.push(read);
            assert(pages.deep_view() =~= before.push(read.deep_view()));
        }
        i = i + 1;
    }
    pages
}

/// How the run fails if a page cannot be read back.
pub fn read_failure(node: &Node, source: NotionError, root_url: &str) -> (r: RunError)
    ensures
        r.deep_view() == (RunErrorView::Api {
            context: "post-validation read failed for node "@ + text::debug_quoted(node.title@),
            source: source.deep_view(),
            root_url: Some(root_url@),
        }),
{
    let context: String = text::concat2(
        "post-validation read failed for node ",
        text::debug_quote(node.title.as_str()).as_str(),
    );
    RunError::Api { context, source, root_url: Some(root_url.to_owned()) }
}

/// The results of those of the first `k` nodes whose links are not all found.
pub open spec fn failed_nodes(
    nodes: Seq<NodeView>,
    links: LinkMapView,
    found: Seq<FoundView>,
    k: int,
) -> Seq<ResultView>
    decreases k,
{
    if k <= 0 {
        Seq::<ResultView>::empty()
    } else {
        let head = failed_nodes(nodes, links, found, k - 1);
        let n = nodes[k - 1];
        let pages = pages_to_read(nodes, links, nodes.len() as int);
        let result = validate::checked(n, links, found[page_index(pages, page_of(n, links))]);
        if result.missing.len() == 0 {
            head
        } else {
            head.push(result)
        }
    }
}

/// Where a page is found, it stands.
pub proof fn lemma_page_index(pages: Seq<(Seq<char>, int)>, page: Seq<char>)
    ensures
        0 <= page_index(pages, page) <= pages.len(),
        page_index(pages, page) < pages.len() ==> pages[page_index(pages, page)].0 == page,
    decreases pages.len(),
{
    if pages.len() > 0 && pages.first().0 != page {
        lemma_page_index(pages.drop_first(), page);
    }
}

proof fn lemma_page_index_push(pages: Seq<(Seq<char>, int)>, x: (Seq<char>, int), page: Seq<char>)
    ensures
        page_index(pages, page) < pages.len() ==> page_index(pages.push(x), page) == page_index(
            pages,
            page,
        ),
        page_index(pages, page) >= pages.len() && x.0 == page ==> page_index(pages.push(x), page)
            == pages.len(),
    decreases pages.len(),
{
    if pages.len() == 0 {
    } else {
        assert(pages.push(x).drop_first() =~= pages.drop_first().push(x));
        assert(pages.push(x).first() == pages.first());
        if pages.first().0 != page {
            lemma_page_index_push(pages.drop_first(), x, page);
        }
    }
    lemma_page_index(pages, page);
}

/// Every node is on a page.
pub proof fn lemma_all_linked(v: VaultView, root: PathView, page_ids: Seq<Seq<char>>)
    ensures
        all_linked(v.nodes, page_links(v, root, page_ids)),
{
    let none = no_headings(v.nodes.len());
    lemma_linked(v, root, page_ids, none, v.nodes.len() as int);
}

proof fn lemma_linked(
    v: VaultView,
    root: PathView,
    page_ids: Seq<Seq<char>>,
    headings: Seq<Option<Seq<char>>>,
    k: int,
)
    ensures
        forall|i: int|
            0 <= i < k ==> link_map_spec(
                v,
                root,
                page_ids,
                headings,
                k,
            ).dom().contains(#[trigger] v.nodes[i].id),
    decreases k,
{
    if k > 0 {
        lemma_linked(v, root, page_ids, headings, k - 1);
    }
}

/// The node noted with a page to read is a node of the vault.
pub proof fn lemma_reads_nodes(nodes: Seq<NodeView>, links: LinkMapView, k: int, p: int)
    requires
        0 <= k <= nodes.len(),
        0 <= p < pages_to_read(nodes, links, k).len(),
    ensures
        0 <= pages_to_read(nodes, links, k)[p].1 < k,
    decreases k,
{
    if k > 0 {
        if p < pages_to_read(nodes, links, k - 1).len() {
            lemma_reads_nodes(nodes, links, k - 1, p);
        }
    }
}

/// Every node's page is among the pages to read.
pub proof fn lemma_pages_read(nodes: Seq<NodeView>, links: LinkMapView, i: int, k: int)
    requires
        0 <= i < k <= nodes.len(),
    ensures
        0 <= page_index(pages_to_read(nodes, links, k), page_of(nodes[i], links)) < pages_to_read(
            nodes,
            links,
            k,
        ).len(),
    decreases k,
{
    let page = page_of(nodes[i], links);
    let head = pages_to_read(nodes, links, k - 1);
    let last = page_of(nodes[k - 1], links);
    lemma_page_index(head, page);
    lemma_page_index(head, last);
    if i < k - 1 {
        lemma_pages_read(nodes, links, i, k - 1);
    }
    lemma_page_index_push(head, (last, k - 1), page);
    lemma_page_index(pages_to_read(nodes, links, k), page);
}

/// Checks what was read back of the pages, `found[p]` being what was found on
/// `pages[p]`: the run fails if a link is missing.
pub fn post_validation(
    v: &Vault,
    links: &LinkMap,
    pages: &Vec<PageRead>,
    found: &Vec<FoundLinks>,
    root_url: &str,
) -> (r: Result<(), RunError>)
    requires
        all_linked(v.nodes.deep_view(), links.map()),
        pages.deep_view() == pages_to_read(
            v.nodes.deep_view(),
            links.map(),
            v.nodes.deep_view().len() as int,
        ),
        found@.len() == pages@.len(),
    ensures
        ({
            let nodes = v.nodes.deep_view();
            let failed = failed_nodes(
                nodes,
                links.map(),
                found.deep_view(),
                nodes.len() as int,
            );
            match r {
                Ok(_) => failed.len() == 0,
                Err(e) => failed.len() > 0 && e.deep_view() == (RunErrorView::PostValidation {
                    root_url: root_url@,
                    failures: failed,
                }),
            }
        }),
{
    let ghost nodes = v.nodes.deep_view();
    let ghost ps = pages.deep_view();
    let ghost fs = found.deep_view();
    let mut failures: Vec<PostValidationResult> = Vec::new();
    let mut i: usize = 0;
    assert(failures.deep_view() =~= failed_nodes(nodes, links.map(), fs, 0));
    while i < v.nodes.len()
        invariant
            nodes == v.nodes.deep_view(),
            ps == pages.deep_view(),
            fs == found.deep_view(),
            all_linked(nodes, links.map()),
            ps == pages_to_read(nodes, links.map(), nodes.len() as int),
            found@.len() == pages@.len(),
            i <= v.nodes@.len(),
            failures.deep_view() == failed_nodes(nodes, links.map(), fs, i as int),
        decreases v.nodes.len() - i,
    {
        let ghost before = failures.deep_view();
        proof {
            assert(nodes[i as int] == v.nodes[i as int].deep_view());
            assert(links.map().dom().contains(nodes[i as int].id));
            lemma_pages_read(nodes, links.map(), i as int, nodes.len() as int);
        }
        let page_id: String = page_id_of(&v.nodes[i], links);
        let p: usize = find_page(pages, page_id.as_str());
        assert(fs[p as int] == found[p as int].deep_view());
        let result: PostValidationResult = validate::check_node(&v.nodes[i], links, &found[p]);
        if !result.passed() {
            failures.push(result);
            assert(failures.deep_view() =~= before.push(result.deep_view()));
        }
        i = i + 1;
    }
    if failures.len() == 0 {
        Ok(())
    } else {
        Err(RunError::PostValidation { root_url: root_url.to_owned(), failures })
    }
}

} // verus!
