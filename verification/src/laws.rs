//! Laws of a snapshot as a whole: what links point at, what comes to stand on
//! each page, and that a snapshot which was stored as it was sent passes its
//! validation.

use crate::blocks;
use crate::blocks::BlockView;
use crate::content;
use crate::content::{GroupView, Round};
use crate::converter;
use crate::converter::{LinkMapView, LinkTargetView, MAX_RICH_TEXT_ITEMS};
use crate::layout;
use crate::layout::Placement;
use crate::notion;
use crate::notion::{JobView, PageItems, WriteView};
use crate::org_parser;
use crate::org_parser::{NodeView, OrgBlockView};
use crate::pages;
use crate::path::PathView;
use crate::ports::{ChildBlockView, CreatedPage, FsErrorView, PositionView};
use crate::publish;
use crate::publish::{OutcomeView, Publication};
use crate::run;
use crate::transformers;
use crate::validate;
use crate::validate::FoundView;
use crate::vault;
use crate::vault::{MarkerReply, VaultErrorView, VaultView};
use vstd::prelude::*;

pub mod rendering;
pub mod marking;
pub mod texts;
pub mod reading;
pub mod document;
pub mod paths;
pub mod scanning;
pub mod planning;
pub mod checking;
pub mod writing;
pub mod telling;
pub mod publishing;

verus! {

// ---------------------------------------------------------------------
// Links
// ---------------------------------------------------------------------

proof fn lemma_link_map(
    v: VaultView,
    root: PathView,
    page_ids: Seq<Seq<char>>,
    headings: Seq<Option<Seq<char>>>,
    k: int,
)
    requires
        0 <= k <= v.nodes.len(),
        vault::unique_ids(v.nodes),
    ensures
        forall|i: int|
            0 <= i < k ==> content::link_map_spec(
                v,
                root,
                page_ids,
                headings,
                k,
            ).dom().contains((#[trigger] v.nodes[i]).id) && content::link_map_spec(
                v,
                root,
                page_ids,
                headings,
                k,
            )[v.nodes[i].id] == content::target_of(v, root, page_ids, headings, i),
        forall|id: Seq<char>| #[trigger]
            content::link_map_spec(v, root, page_ids, headings, k).dom().contains(id)
                ==> exists|i: int| 0 <= i < k && (#[trigger] v.nodes[i]).id == id,
    decreases k,
{
    if k > 0 {
        lemma_link_map(v, root, page_ids, headings, k - 1);
        let before = content::link_map_spec(v, root, page_ids, headings, k - 1);
        let m = content::link_map_spec(v, root, page_ids, headings, k);
        let last = v.nodes[k - 1];
        assert forall|i: int| 0 <= i < k implies m.dom().contains((#[trigger] v.nodes[i]).id)
            && m[v.nodes[i].id] == content::target_of(
            v,
            root,
            page_ids,
            headings,
            i,
        ) by {
            if i < k - 1 {
                assert(v.nodes[i].id != v.nodes[k - 1].id);
            }
        }
        assert forall|id: Seq<char>| #[trigger] m.dom().contains(id) implies exists|i: int|
            0 <= i < k && (#[trigger] v.nodes[i]).id == id by {
            if id == last.id {
                assert(v.nodes[k - 1].id == id);
            } else {
                assert(before.dom().contains(id));
            }
        }
    }
}

/// In a snapshot every link to a node points at the page that the node is on,
/// also where several nodes share a page; and only nodes of the vault are
/// pointed at.
pub proof fn law_links_point_at_pages(v: VaultView, root: PathView, page_ids: Seq<Seq<char>>)
    requires
        vault::unique_ids(v.nodes),
    ensures
        forall|i: int|
            0 <= i < v.nodes.len() ==> content::page_links(v, root, page_ids).dom().contains(
                (#[trigger] v.nodes[i]).id,
            ) && content::page_links(v, root, page_ids)[v.nodes[i].id] == LinkTargetView::Page(
                page_ids[i],
            ),
        forall|id: Seq<char>| #[trigger]
            content::page_links(v, root, page_ids).dom().contains(id) <==> validate::known(
                v.nodes,
                id,
            ),
        content::all_linked(v.nodes, content::page_links(v, root, page_ids)),
{
    let n = v.nodes.len() as int;
    let none = content::no_headings(v.nodes.len());
    let m = content::page_links(v, root, page_ids);
    lemma_link_map(v, root, page_ids, none, n);
    assert forall|i: int| 0 <= i < v.nodes.len() implies m.dom().contains(
        (#[trigger] v.nodes[i]).id,
    ) && m[v.nodes[i].id] == LinkTargetView::Page(page_ids[i]) by {
        assert(none[i] is None);
    }
    assert forall|id: Seq<char>| #[trigger] m.dom().contains(id) <==> validate::known(
        v.nodes,
        id,
    ) by {
        if m.dom().contains(id) {
            let i = choose|i: int| 0 <= i < n && (#[trigger] v.nodes[i]).id == id;
            assert(v.nodes[i].id == id);
        }
        if validate::known(v.nodes, id) {
            let i = choose|i: int| 0 <= i < v.nodes.len() && #[trigger] v.nodes[i].id == id;
            assert(m.dom().contains(v.nodes[i].id));
        }
    }
    assert forall|i: int| 0 <= i < v.nodes.len() implies m.dom().contains(
        #[trigger] v.nodes[i].id,
    ) by {
        let x = v.nodes[i];
        assert(m.dom().contains(x.id));
    }
}

// ---------------------------------------------------------------------
// The content of a node
// ---------------------------------------------------------------------

/// A node that is tagged as unreviewed starts with the warning; another node's
/// content is its own blocks, one for one.
pub proof fn law_unreviewed_comes_first(n: NodeView, links: LinkMapView)
    ensures
        org_parser::carries_tag(n, "unreviewed"@) ==> {
            &&& content::content_of(n, links).len() == n.blocks.len() + 1
            &&& content::content_of(n, links)[0] == transformers::warning_spec()
            &&& content::content_of(n, links).drop_first() == content::rendered(n.blocks, links)
        },
        !org_parser::carries_tag(n, "unreviewed"@) ==> content::content_of(n, links)
            == content::rendered(n.blocks, links),
        content::rendered(n.blocks, links).len() == n.blocks.len(),
{
    if org_parser::carries_tag(n, "unreviewed"@) {
        assert(content::content_of(n, links).drop_first() =~= content::rendered(n.blocks, links));
    }
}

/// The heading that introduces a merged node is one block.
pub proof fn law_heading_is_one_block(n: NodeView)
    ensures
        content::heading_of(n).len() == 1,
        content::heading_of(n)[0] is Heading1,
{
}

// ---------------------------------------------------------------------
// Groups
// ---------------------------------------------------------------------

/// The nodes in `some` that go on a page.
pub open spec fn on_page(some: Seq<int>, page_ids: Seq<Seq<char>>, page_id: Seq<char>) -> Seq<int>
    decreases some.len(),
{
    if some.len() == 0 {
        some
    } else {
        let head = on_page(some.drop_last(), page_ids, page_id);
        if page_ids[some.last()] == page_id {
            head.push(some.last())
        } else {
            head
        }
    }
}

/// Whether no two groups are of the same page.
pub open spec fn distinct_pages(groups: Seq<GroupView>) -> bool {
    forall|g: int, h: int|
        #![trigger groups[g], groups[h]]
        0 <= g < h < groups.len() ==> groups[g].page_id != groups[h].page_id
}

proof fn lemma_group_index(groups: Seq<GroupView>, page_id: Seq<char>)
    ensures
        0 <= content::group_index(groups, page_id) <= groups.len(),
        content::group_index(groups, page_id) < groups.len() ==> groups[content::group_index(
            groups,
            page_id,
        )].page_id == page_id,
        forall|g: int|
            0 <= g < content::group_index(groups, page_id) ==> (#[trigger] groups[g]).page_id
                != page_id,
    decreases groups.len(),
{
    if groups.len() > 0 && groups.first().page_id != page_id {
        let t = groups.drop_first();
        lemma_group_index(t, page_id);
        assert forall|g: int| 0 <= g < content::group_index(groups, page_id) implies (
        #[trigger] groups[g]).page_id != page_id by {
            if g > 0 {
                assert(groups[g] == t[g - 1]);
            }
        }
    }
}

proof fn lemma_on_page_empty(some: Seq<int>, page_ids: Seq<Seq<char>>, page_id: Seq<char>)
    requires
        forall|k: int| 0 <= k < some.len() ==> page_ids[#[trigger] some[k]] != page_id,
    ensures
        on_page(some, page_ids, page_id).len() == 0,
    decreases some.len(),
{
    if some.len() > 0 {
        let h = some.drop_last();
        assert forall|k: int| 0 <= k < h.len() implies page_ids[#[trigger] h[k]] != page_id by {
            assert(h[k] == some[k]);
        }
        lemma_on_page_empty(h, page_ids, page_id);
        assert(some[some.len() - 1] == some.last());
    }
}

/// Grouping gives one group for each page that a node goes on, and a group
/// holds exactly the nodes that go on its page, in their order.
pub proof fn law_grouping(some: Seq<int>, page_ids: Seq<Seq<char>>)
    ensures
        distinct_pages(content::grouped(some, page_ids)),
        forall|g: int|
            0 <= g < content::grouped(some, page_ids).len() ==> (#[trigger] content::grouped(
                some,
                page_ids,
            )[g]).nodes == on_page(some, page_ids, content::grouped(some, page_ids)[g].page_id),
        forall|k: int|
            0 <= k < some.len() ==> content::group_index(
                content::grouped(some, page_ids),
                page_ids[#[trigger] some[k]],
            ) < content::grouped(some, page_ids).len(),
    decreases some.len(),
{
    if some.len() > 0 {
        let h = some.drop_last();
        let x = some.last();
        let page = page_ids[x];
        let old_groups = content::grouped(h, page_ids);
        let groups = content::grouped(some, page_ids);
        let at = content::group_index(old_groups, page);
        law_grouping(h, page_ids);
        lemma_group_index(old_groups, page);
        if at >= old_groups.len() {
            assert forall|k: int| 0 <= k < h.len() implies page_ids[#[trigger] h[k]] != page by {
                lemma_group_index(old_groups, page_ids[h[k]]);
            }
            lemma_on_page_empty(h, page_ids, page);
            assert(on_page(h, page_ids, page) =~= Seq::<int>::empty());
        }
        assert forall|g: int| 0 <= g < groups.len() implies (#[trigger] groups[g]).nodes == on_page(
            some,
            page_ids,
            groups[g].page_id,
        ) by {
            if at < old_groups.len() {
                assert(old_groups[g].page_id == groups[g].page_id);
                if g != at {
                    assert(groups[g] == old_groups[g]);
                    assert(old_groups[g].page_id != old_groups[at].page_id) by {
                        if g < at {
                        } else {
                            assert(old_groups[at].page_id != old_groups[g].page_id);
                        }
                    }
                }
            } else if g < old_groups.len() {
                assert(groups[g] == old_groups[g]);
            } else {
                assert(groups[g].nodes =~= on_page(some, page_ids, page));
            }
        }
        assert forall|g: int, k: int|
            #![trigger groups[g], groups[k]]
            0 <= g < k < groups.len() implies groups[g].page_id != groups[k].page_id by {
            if at < old_groups.len() {
                assert(old_groups[g].page_id == groups[g].page_id);
                assert(old_groups[k].page_id == groups[k].page_id);
            } else {
                assert(groups[g] == old_groups[g]);
                if k < old_groups.len() {
                    assert(groups[k] == old_groups[k]);
                }
            }
        }
        assert forall|k: int| 0 <= k < some.len() implies content::group_index(
            groups,
            page_ids[#[trigger] some[k]],
        ) < groups.len() by {
            let p = page_ids[some[k]];
            lemma_group_index(groups, p);
            if k < h.len() {
                assert(h[k] == some[k]);
                lemma_group_index(old_groups, p);
                let m = content::group_index(old_groups, p);
                assert(groups[m].page_id == p);
            } else if at < old_groups.len() {
                assert(groups[at].page_id == p);
            } else {
                assert(groups[old_groups.len() as int].page_id == p);
            }
        }
    }
}

// ---------------------------------------------------------------------
// Rounds
// ---------------------------------------------------------------------

proof fn lemma_round_nodes(v: VaultView, root: PathView, round: Round, some: Seq<int>)
    ensures
        forall|i: int| #[trigger]
            content::round_nodes(v, root, round, some).contains(i) <==> some.contains(i)
                && content::in_round(v, root, round, i),
        some.no_duplicates() ==> content::round_nodes(v, root, round, some).no_duplicates(),
    decreases some.len(),
{
    if some.len() > 0 {
        let h = some.drop_last();
        let x = some.last();
        let f = content::round_nodes(v, root, round, h);
        let r = content::round_nodes(v, root, round, some);
        lemma_round_nodes(v, root, round, h);
        assert forall|i: int| #[trigger] r.contains(i) <==> some.contains(i) && content::in_round(
            v,
            root,
            round,
            i,
        ) by {
            assert(f.contains(i) <==> h.contains(i) && content::in_round(v, root, round, i));
            if h.contains(i) {
                let k = choose|k: int| 0 <= k < h.len() && h[k] == i;
                assert(some[k] == i);
            }
            if some.contains(i) && i != x {
                let k = choose|k: int| 0 <= k < some.len() && some[k] == i;
                assert(h[k] == i);
            }
            assert(some[some.len() - 1] == x);
            if f.contains(i) {
                let k = choose|k: int| 0 <= k < f.len() && f[k] == i;
                assert(r[k] == i);
            }
            if i == x && content::in_round(v, root, round, x) {
                assert(r[r.len() - 1] == x);
            }
            if r.contains(i) && !f.contains(i) {
                let k = choose|k: int| 0 <= k < r.len() && r[k] == i;
                if k < f.len() {
                    assert(f[k] == i);
                }
            }
        }
        if some.no_duplicates() {
            assert(h.no_duplicates()) by {
                assert forall|a: int, b: int|
                    0 <= a < h.len() && 0 <= b < h.len() && a != b implies h[a] != h[b] by {
                    assert(some[a] != some[b]);
                }
            }
            if content::in_round(v, root, round, x) {
                assert(!f.contains(x)) by {
                    if f.contains(x) {
                        assert(h.contains(x));
                        let k = choose|k: int| 0 <= k < h.len() && h[k] == x;
                        assert(some[k] == some[some.len() - 1]);
                    }
                }
                assert forall|a: int, b: int|
                    0 <= a < r.len() && 0 <= b < r.len() && a != b implies r[a] != r[b] by {
                    if a < f.len() {
                        assert(f.contains(f[a]));
                    }
                    if b < f.len() {
                        assert(f.contains(f[b]));
                    }
                }
            }
        }
    }
}

/// Over both rounds the content of every node is written exactly once: that of
/// an index node in the first, that of the others in the second. The first
/// round moreover writes a heading for each merged node and nothing else.
pub proof fn law_every_node_written_once(
    v: VaultView,
    root: PathView,
    links: LinkMapView,
    headings: Seq<Option<Seq<char>>>,
    i: int,
)
    requires
        0 <= i < v.nodes.len(),
    ensures
        ({
            let order = layout::display_order(v, root);
            let first = content::round_nodes(v, root, Round::Headings, order);
            let second = content::round_nodes(v, root, Round::Content, order);
            let place = layout::placed(v, root, v.nodes[i]);
            &&& first.no_duplicates()
            &&& second.no_duplicates()
            &&& first.contains(i) <==> place != Placement::Paged
            &&& second.contains(i) <==> place != Placement::Index
            &&& content::write_of(v, root, Round::Headings, links, headings, i).heading <==> place
                != Placement::Index
            &&& !content::write_of(v, root, Round::Content, links, headings, i).heading
            &&& place == Placement::Index ==> content::write_of(
                v,
                root,
                Round::Headings,
                links,
                headings,
                i,
            ).blocks == content::content_of(v.nodes[i], links)
            &&& content::write_of(v, root, Round::Content, links, headings, i).blocks
                == content::content_of(v.nodes[i], links)
        }),
{
    let order = layout::display_order(v, root);
    layout::law_every_node_shown_once(v, root);
    lemma_round_nodes(v, root, Round::Headings, order);
    lemma_round_nodes(v, root, Round::Content, order);
    assert(order.contains(i));
}

/// What a round writes on a page is what it writes for each node on the page,
/// in the order in which the nodes are shown; and no page comes twice.
pub proof fn law_jobs(
    v: VaultView,
    root: PathView,
    round: Round,
    page_ids: Seq<Seq<char>>,
    links: LinkMapView,
    headings: Seq<Option<Seq<char>>>,
)
    ensures
        ({
            let jobs = content::round_jobs(v, root, round, page_ids, links, headings);
            let nodes = content::round_nodes(v, root, round, layout::display_order(v, root));
            &&& forall|g: int, h: int|
                #![trigger jobs[g], jobs[h]]
                0 <= g < h < jobs.len() ==> jobs[g].page_id != jobs[h].page_id
            &&& forall|g: int|
                0 <= g < jobs.len() ==> (#[trigger] jobs[g]).writes == page_writes(
                    v,
                    root,
                    round,
                    links,
                    headings,
                    on_page(nodes, page_ids, jobs[g].page_id),
                )
        }),
{
    let nodes = content::round_nodes(v, root, round, layout::display_order(v, root));
    let groups = content::grouped(nodes, page_ids);
    let jobs = content::round_jobs(v, root, round, page_ids, links, headings);
    law_grouping(nodes, page_ids);
    assert forall|g: int, h: int|
        #![trigger jobs[g], jobs[h]]
        0 <= g < h < jobs.len() implies jobs[g].page_id != jobs[h].page_id by {
        assert(groups[g].page_id != groups[h].page_id);
    }
    assert forall|g: int| 0 <= g < jobs.len() implies (#[trigger] jobs[g]).writes == page_writes(
        v,
        root,
        round,
        links,
        headings,
        on_page(nodes, page_ids, jobs[g].page_id),
    ) by {
        assert(jobs[g] == content::job_of(v, root, round, links, headings, groups[g]));
        assert(jobs[g].writes =~= page_writes(
            v,
            root,
            round,
            links,
            headings,
            groups[g].nodes,
        ));
    }
}

/// What a round writes for nodes, one after another.
pub open spec fn page_writes(
    v: VaultView,
    root: PathView,
    round: Round,
    links: LinkMapView,
    headings: Seq<Option<Seq<char>>>,
    nodes: Seq<int>,
) -> Seq<WriteView> {
    nodes.map_values(|i: int| content::write_of(v, root, round, links, headings, i))
}

// ---------------------------------------------------------------------
// The page of a directory
// ---------------------------------------------------------------------

/// What comes to stand on a directory's page for one node.
pub open spec fn node_section(v: VaultView, root: PathView, links: LinkMapView, i: int) -> Seq<
    BlockView,
> {
    let n = v.nodes[i];
    if layout::placed(v, root, n) == Placement::Merged {
        content::heading_of(n) + content::content_of(n, links)
    } else {
        content::content_of(n, links)
    }
}

/// What comes to stand on a directory's page: node by node, a merged node
/// behind the heading that bears its title.
pub open spec fn page_layout(
    v: VaultView,
    root: PathView,
    links: LinkMapView,
    nodes: Seq<int>,
) -> Seq<BlockView>
    decreases nodes.len(),
{
    if nodes.len() == 0 {
        Seq::<BlockView>::empty()
    } else {
        page_layout(v, root, links, nodes.drop_last()) + node_section(v, root, links, nodes.last())
    }
}

/// The blocks of a page.
pub open spec fn blocks_of(page: PageItems) -> Seq<BlockView> {
    page.map_values(|x: (Seq<char>, BlockView)| x.1)
}

/// The merged nodes among nodes.
pub open spec fn merged_in(v: VaultView, root: PathView, nodes: Seq<int>) -> Seq<int>
    decreases nodes.len(),
{
    if nodes.len() == 0 {
        nodes
    } else {
        let head = merged_in(v, root, nodes.drop_last());
        if layout::placed(v, root, v.nodes[nodes.last()]) == Placement::Merged {
            head.push(nodes.last())
        } else {
            head
        }
    }
}

/// Whether each write was given one ID for each of its blocks.
pub open spec fn ids_match(ids: Seq<Seq<Seq<char>>>, writes: Seq<WriteView>) -> bool {
    &&& ids.len() == writes.len()
    &&& forall|k: int|
        0 <= k < ids.len() ==> (#[trigger] ids[k]).len() == writes[k].blocks.len()
}

/// Whether no ID occurs twice.
pub open spec fn ids_differ(ids: Seq<Seq<Seq<char>>>) -> bool {
    forall|p: int, x: int, q: int, y: int|
        #![trigger ids[p][x], ids[q][y]]
        0 <= p < ids.len() && 0 <= x < ids[p].len() && 0 <= q < ids.len() && 0 <= y < ids[q].len()
            && ids[p][x] == ids[q][y] ==> p == q && x == y
}

/// Whether no ID of the one is an ID of the other.
pub open spec fn ids_disjoint(a: Seq<Seq<Seq<char>>>, b: Seq<Seq<Seq<char>>>) -> bool {
    forall|p: int, x: int, q: int, y: int|
        #![trigger a[p][x], b[q][y]]
        0 <= p < a.len() && 0 <= x < a[p].len() && 0 <= q < b.len() && 0 <= y < b[q].len()
            ==> a[p][x] != b[q][y]
}

/// Whether an ID is one of those of the first `k` writes.
pub open spec fn id_among(ids: Seq<Seq<Seq<char>>>, k: int, id: Seq<char>) -> bool {
    exists|p: int, x: int|
        #![trigger ids[p][x]]
        0 <= p < k && 0 <= x < ids[p].len() && ids[p][x] == id
}

/// Whether the blocks of a page have the IDs of the first writes.
pub open spec fn comes_from(
    page: PageItems,
    a: Seq<Seq<Seq<char>>>,
    ka: int,
    b: Seq<Seq<Seq<char>>>,
    kb: int,
) -> bool {
    forall|t: int|
        0 <= t < page.len() ==> id_among(a, ka, (#[trigger] page[t]).0) || id_among(
            b,
            kb,
            page[t].0,
        )
}

proof fn lemma_comes_from_concat(
    x: PageItems,
    y: PageItems,
    a: Seq<Seq<Seq<char>>>,
    ka: int,
    b: Seq<Seq<Seq<char>>>,
    kb: int,
)
    requires
        comes_from(x, a, ka, b, kb),
        comes_from(y, a, ka, b, kb),
    ensures
        comes_from(x + y, a, ka, b, kb),
{
    let r = x + y;
    assert forall|t: int| 0 <= t < r.len() implies id_among(a, ka, (#[trigger] r[t]).0) || id_among(
        b,
        kb,
        r[t].0,
    ) by {
        if t < x.len() {
            assert(r[t] == x[t]);
        } else {
            assert(r[t] == y[t - x.len()]);
        }
    }
}

proof fn lemma_comes_from_more(
    x: PageItems,
    a: Seq<Seq<Seq<char>>>,
    ka: int,
    b: Seq<Seq<Seq<char>>>,
    kb: int,
    la: int,
    lb: int,
)
    requires
        comes_from(x, a, ka, b, kb),
        ka <= la,
        kb <= lb,
    ensures
        comes_from(x, a, la, b, lb),
{
    assert forall|t: int| 0 <= t < x.len() implies id_among(a, la, (#[trigger] x[t]).0) || id_among(
        b,
        lb,
        x[t].0,
    ) by {
        if id_among(a, ka, x[t].0) {
            let (p, y) = choose|p: int, y: int|
                #![trigger a[p][y]]
                0 <= p < ka && 0 <= y < a[p].len() && a[p][y] == x[t].0;
            assert(a[p][y] == x[t].0);
        } else {
            let (p, y) = choose|p: int, y: int|
                #![trigger b[p][y]]
                0 <= p < kb && 0 <= y < b[p].len() && b[p][y] == x[t].0;
            assert(b[p][y] == x[t].0);
        }
    }
}

proof fn lemma_items_from_first(
    a: Seq<Seq<Seq<char>>>,
    k: int,
    blocks: Seq<BlockView>,
    b: Seq<Seq<Seq<char>>>,
    kb: int,
)
    requires
        0 <= k < a.len(),
        a[k].len() == blocks.len(),
    ensures
        comes_from(notion::items(a[k], blocks), a, k + 1, b, kb),
{
    let page = notion::items(a[k], blocks);
    assert forall|t: int| 0 <= t < page.len() implies id_among(
        a,
        k + 1,
        (#[trigger] page[t]).0,
    ) by {
        assert(a[k][t] == page[t].0);
    }
}

proof fn lemma_items_from_second(
    a: Seq<Seq<Seq<char>>>,
    ka: int,
    b: Seq<Seq<Seq<char>>>,
    k: int,
    blocks: Seq<BlockView>,
)
    requires
        0 <= k < b.len(),
        b[k].len() == blocks.len(),
    ensures
        comes_from(notion::items(b[k], blocks), a, ka, b, k + 1),
{
    let page = notion::items(b[k], blocks);
    assert forall|t: int| 0 <= t < page.len() implies id_among(
        b,
        k + 1,
        (#[trigger] page[t]).0,
    ) by {
        assert(b[k][t] == page[t].0);
    }
}

proof fn lemma_fresh_second(
    page: PageItems,
    a: Seq<Seq<Seq<char>>>,
    b: Seq<Seq<Seq<char>>>,
    k: int,
)
    requires
        0 <= k < b.len(),
        comes_from(page, a, a.len() as int, b, k),
        ids_differ(b),
        ids_disjoint(a, b),
    ensures
        notion::fresh(b[k], page),
{
    let ids = b[k];
    assert forall|i: int, j: int|
        0 <= i < ids.len() && 0 <= j < ids.len() && i != j implies ids[i] != ids[j] by {
        assert(b[k][i] != b[k][j]);
    }
    assert forall|i: int, j: int|
        #![trigger ids[i], page[j]]
        0 <= i < ids.len() && 0 <= j < page.len() implies ids[i] != page[j].0 by {
        let id = page[j].0;
        if id_among(a, a.len() as int, id) {
            let (p, x) = choose|p: int, x: int|
                #![trigger a[p][x]]
                0 <= p < a.len() && 0 <= x < a[p].len() && a[p][x] == id;
            assert(a[p][x] != b[k][i]);
        } else {
            let (p, x) = choose|p: int, x: int|
                #![trigger b[p][x]]
                0 <= p < k && 0 <= x < b[p].len() && b[p][x] == id;
            assert(b[p][x] != b[k][i]);
        }
    }
}

proof fn lemma_fresh_first(
    page: PageItems,
    a: Seq<Seq<Seq<char>>>,
    b: Seq<Seq<Seq<char>>>,
    k: int,
)
    requires
        0 <= k < a.len(),
        comes_from(page, a, k, b, 0),
        ids_differ(a),
    ensures
        notion::fresh(a[k], page),
{
    let ids = a[k];
    assert forall|i: int, j: int|
        0 <= i < ids.len() && 0 <= j < ids.len() && i != j implies ids[i] != ids[j] by {
        assert(a[k][i] != a[k][j]);
    }
    assert forall|i: int, j: int|
        #![trigger ids[i], page[j]]
        0 <= i < ids.len() && 0 <= j < page.len() implies ids[i] != page[j].0 by {
        let id = page[j].0;
        assert(id_among(a, k, id) || id_among(b, 0, id));
        let (p, x) = choose|p: int, x: int|
            #![trigger a[p][x]]
            0 <= p < k && 0 <= x < a[p].len() && a[p][x] == id;
        assert(a[p][x] != a[k][i]);
    }
}

/// What the first round writes from the `k`th write on.
spec fn first_from(a: Seq<Seq<Seq<char>>>, writes: Seq<WriteView>, k: int) -> PageItems
    decreases writes.len() - k,
{
    if k >= writes.len() {
        Seq::empty()
    } else {
        notion::items(a[k], writes[k].blocks) + first_from(a, writes, k + 1)
    }
}

proof fn lemma_first_round(
    page: PageItems,
    a: Seq<Seq<Seq<char>>>,
    writes: Seq<WriteView>,
    k: int,
)
    requires
        0 <= k <= writes.len(),
        ids_match(a, writes),
        ids_differ(a),
        comes_from(page, a, k, a, 0),
        forall|j: int|
            0 <= j < writes.len() ==> (#[trigger] writes[j]).position == PositionView::End,
    ensures
        notion::writes_in_chunks(page, writes, a, k) == page + first_from(a, writes, k),
    decreases writes.len() - k,
{
    if k < writes.len() {
        let new = notion::items(a[k], writes[k].blocks);
        lemma_fresh_first(page, a, a, k);
        notion::law_chunks_append_in_order(
            page,
            writes[k].blocks,
            a[k],
            writes[k].position,
            notion::write_appender(writes, k),
        );
        lemma_comes_from_more(page, a, k, a, 0, k + 1, 0);
        lemma_items_from_first(a, k, writes[k].blocks, a, 0);
        lemma_comes_from_concat(page, new, a, k + 1, a, 0);
        lemma_first_round(page + new, a, writes, k + 1);
        assert(page + new + first_from(a, writes, k + 1) =~= page + first_from(a, writes, k));
    } else {
        assert(page + first_from(a, writes, k) =~= page);
    }
}

proof fn lemma_first_from_origin(a: Seq<Seq<Seq<char>>>, writes: Seq<WriteView>, k: int)
    requires
        0 <= k <= writes.len(),
        ids_match(a, writes),
    ensures
        comes_from(first_from(a, writes, k), a, a.len() as int, a, 0),
    decreases writes.len() - k,
{
    if k < writes.len() {
        lemma_first_from_origin(a, writes, k + 1);
        lemma_items_from_first(a, k, writes[k].blocks, a, 0);
        let new = notion::items(a[k], writes[k].blocks);
        lemma_comes_from_more(new, a, k + 1, a, 0, a.len() as int, 0);
        lemma_comes_from_concat(new, first_from(a, writes, k + 1), a, a.len() as int, a, 0);
    }
}

/// The page up to the `j`th node when both rounds are done with it. `m` of
/// those nodes are merged.
spec fn done_upto(
    v: VaultView,
    root: PathView,
    nodes: Seq<int>,
    a: Seq<Seq<Seq<char>>>,
    first: Seq<WriteView>,
    b: Seq<Seq<Seq<char>>>,
    second: Seq<WriteView>,
    j: int,
) -> PageItems
    decreases j,
{
    if j <= 0 {
        Seq::empty()
    } else {
        let before = done_upto(v, root, nodes, a, first, b, second, j - 1);
        let own = notion::items(a[j - 1], first[j - 1].blocks);
        if layout::placed(v, root, v.nodes[nodes[j - 1]]) == Placement::Merged {
            let m = merged_in(v, root, nodes.take(j - 1)).len() as int;
            before + own + notion::items(b[m], second[m].blocks)
        } else {
            before + own
        }
    }
}

proof fn lemma_merged_at(v: VaultView, root: PathView, nodes: Seq<int>, j: int)
    requires
        0 <= j < nodes.len(),
        layout::placed(v, root, v.nodes[nodes[j]]) == Placement::Merged,
    ensures
        merged_in(v, root, nodes.take(j)).len() < merged_in(v, root, nodes).len(),
        merged_in(v, root, nodes)[merged_in(v, root, nodes.take(j)).len() as int] == nodes[j],
    decreases nodes.len(),
{
    let h = nodes.drop_last();
    if j < h.len() {
        assert(h.take(j) =~= nodes.take(j));
        assert(h[j] == nodes[j]);
        lemma_merged_at(v, root, h, j);
    } else {
        assert(nodes.take(j) =~= h);
        assert(nodes.last() == nodes[j]);
    }
}

proof fn lemma_second_round(
    v: VaultView,
    root: PathView,
    links: LinkMapView,
    headings: Seq<Option<Seq<char>>>,
    nodes: Seq<int>,
    a: Seq<Seq<Seq<char>>>,
    b: Seq<Seq<Seq<char>>>,
    j: int,
)
    requires
        0 <= j <= nodes.len(),
        forall|k: int|
            0 <= k < nodes.len() ==> layout::placed(v, root, v.nodes[#[trigger] nodes[k]])
                != Placement::Paged,
        ids_match(a, page_writes(v, root, Round::Headings, links, headings, nodes)),
        ids_match(
            b,
            page_writes(
                v,
                root,
                Round::Content,
                links,
                headings,
                merged_in(v, root, nodes),
            ),
        ),
        ids_differ(a),
        ids_differ(b),
        ids_disjoint(a, b),
        forall|k: int|
            0 <= k < nodes.len() && layout::placed(v, root, v.nodes[#[trigger] nodes[k]])
                == Placement::Merged ==> headings[nodes[k]] == Some(a[k][0]),
    ensures
        ({
            let first = page_writes(v, root, Round::Headings, links, headings, nodes);
            let merged = merged_in(v, root, nodes);
            let second = page_writes(v, root, Round::Content, links, headings, merged);
            let done = done_upto(v, root, nodes, a, first, b, second, j);
            let m = merged_in(v, root, nodes.take(j)).len() as int;
            &&& comes_from(done, a, j, b, m)
            &&& m <= merged.len()
            &&& notion::writes_in_chunks(done + first_from(a, first, j), second, b, m)
                == done_upto(v, root, nodes, a, first, b, second, nodes.len() as int)
        }),
    decreases nodes.len() - j,
{
    let first = page_writes(v, root, Round::Headings, links, headings, nodes);
    let merged = merged_in(v, root, nodes);
    let second = page_writes(v, root, Round::Content, links, headings, merged);
    let n = nodes.len() as int;
    let done = done_upto(v, root, nodes, a, first, b, second, j);
    let m = merged_in(v, root, nodes.take(j)).len() as int;
    lemma_done_origin(v, root, links, headings, nodes, a, b, j);
    if j == n {
        assert(nodes.take(j) =~= nodes);
        assert(done + first_from(a, first, j) =~= done);
    } else {
        let own = notion::items(a[j], first[j].blocks);
        let rest = first_from(a, first, j + 1);
        let next = done_upto(v, root, nodes, a, first, b, second, j + 1);
        assert(nodes.take(j + 1).drop_last() =~= nodes.take(j));
        assert(nodes.take(j + 1).last() == nodes[j]);
        lemma_second_round(v, root, links, headings, nodes, a, b, j + 1);
        let page = done + first_from(a, first, j);
        if layout::placed(v, root, v.nodes[nodes[j]]) == Placement::Merged {
            lemma_merged_at(v, root, nodes, j);
            law_heading_is_one_block(v.nodes[nodes[j]]);
            let h = a[j][0];
            let body = notion::items(b[m], second[m].blocks);
            assert(first[j].blocks == content::heading_of(v.nodes[nodes[j]]));
            assert(own.len() == 1);
            assert(own[0].0 == h);
            assert(second[m].position == PositionView::After { after_id: h });
            lemma_first_from_origin(a, first, j);
            lemma_comes_from_more(done, a, j, b, m, a.len() as int, m);
            assert(comes_from(first_from(a, first, j), a, a.len() as int, b, m)) by {
                let f = first_from(a, first, j);
                assert forall|t: int| 0 <= t < f.len() implies id_among(
                    a,
                    a.len() as int,
                    (#[trigger] f[t]).0,
                ) by {
                    assert(id_among(a, a.len() as int, f[t].0) || id_among(a, 0, f[t].0));
                }
            }
            lemma_comes_from_concat(done, first_from(a, first, j), a, a.len() as int, b, m);
            lemma_fresh_second(page, a, b, m);
            let at = done.len() as int;
            assert(page[at] == own[0]);
            assert forall|t: int| 0 <= t < at implies (#[trigger] page[t]).0 != h by {
                let id = done[t].0;
                assert(page[t] == done[t]);
                if id_among(a, j, id) {
                    let (p, x) = choose|p: int, x: int|
                        #![trigger a[p][x]]
                        0 <= p < j && 0 <= x < a[p].len() && a[p][x] == id;
                    assert(a[p][x] != a[j][0]);
                } else {
                    let (p, x) = choose|p: int, x: int|
                        #![trigger b[p][x]]
                        0 <= p < m && 0 <= x < b[p].len() && b[p][x] == id;
                    assert(a[j][0] != b[p][x]);
                }
            }
            notion::lemma_item_index(page, h, at);
            notion::law_chunks_append_in_order(
                page,
                second[m].blocks,
                b[m],
                second[m].position,
                notion::write_appender(second, m),
            );
            assert(page.take(at + 1) + body + page.skip(at + 1) =~= next + rest);
        } else {
            assert(page =~= next + rest);
        }
    }
}

proof fn lemma_done_origin(
    v: VaultView,
    root: PathView,
    links: LinkMapView,
    headings: Seq<Option<Seq<char>>>,
    nodes: Seq<int>,
    a: Seq<Seq<Seq<char>>>,
    b: Seq<Seq<Seq<char>>>,
    j: int,
)
    requires
        0 <= j <= nodes.len(),
        ids_match(a, page_writes(v, root, Round::Headings, links, headings, nodes)),
        ids_match(
            b,
            page_writes(
                v,
                root,
                Round::Content,
                links,
                headings,
                merged_in(v, root, nodes),
            ),
        ),
    ensures
        ({
            let first = page_writes(v, root, Round::Headings, links, headings, nodes);
            let merged = merged_in(v, root, nodes);
            let second = page_writes(v, root, Round::Content, links, headings, merged);
            let m = merged_in(v, root, nodes.take(j)).len() as int;
            &&& m <= merged.len()
            &&& comes_from(done_upto(v, root, nodes, a, first, b, second, j), a, j, b, m)
        }),
    decreases j,
{
    let first = page_writes(v, root, Round::Headings, links, headings, nodes);
    let merged = merged_in(v, root, nodes);
    let second = page_writes(v, root, Round::Content, links, headings, merged);
    if j > 0 {
        let m = merged_in(v, root, nodes.take(j - 1)).len() as int;
        let before = done_upto(v, root, nodes, a, first, b, second, j - 1);
        let own = notion::items(a[j - 1], first[j - 1].blocks);
        lemma_done_origin(v, root, links, headings, nodes, a, b, j - 1);
        assert(nodes.take(j).drop_last() =~= nodes.take(j - 1));
        assert(nodes.take(j).last() == nodes[j - 1]);
        lemma_items_from_first(a, j - 1, first[j - 1].blocks, b, m);
        if layout::placed(v, root, v.nodes[nodes[j - 1]]) == Placement::Merged {
            lemma_merged_at(v, root, nodes, j - 1);
            let body = notion::items(b[m], second[m].blocks);
            lemma_items_from_second(a, j, b, m, second[m].blocks);
            lemma_comes_from_more(before, a, j - 1, b, m, j, m + 1);
            lemma_comes_from_more(own, a, j, b, m, j, m + 1);
            lemma_comes_from_concat(before, own, a, j, b, m + 1);
            lemma_comes_from_concat(before + own, body, a, j, b, m + 1);
        } else {
            lemma_comes_from_more(before, a, j - 1, b, m, j, m);
            lemma_comes_from_concat(before, own, a, j, b, m);
        }
    }
}

proof fn lemma_done_blocks(
    v: VaultView,
    root: PathView,
    links: LinkMapView,
    headings: Seq<Option<Seq<char>>>,
    nodes: Seq<int>,
    a: Seq<Seq<Seq<char>>>,
    b: Seq<Seq<Seq<char>>>,
    j: int,
)
    requires
        0 <= j <= nodes.len(),
        forall|k: int|
            0 <= k < nodes.len() ==> layout::placed(v, root, v.nodes[#[trigger] nodes[k]])
                != Placement::Paged,
    ensures
        ({
            let first = page_writes(v, root, Round::Headings, links, headings, nodes);
            let merged = merged_in(v, root, nodes);
            let second = page_writes(v, root, Round::Content, links, headings, merged);
            blocks_of(done_upto(v, root, nodes, a, first, b, second, j)) == page_layout(
                v,
                root,
                links,
                nodes.take(j),
            )
        }),
    decreases j,
{
    let first = page_writes(v, root, Round::Headings, links, headings, nodes);
    let merged = merged_in(v, root, nodes);
    let second = page_writes(v, root, Round::Content, links, headings, merged);
    let done = done_upto(v, root, nodes, a, first, b, second, j);
    if j == 0 {
        assert(blocks_of(done) =~= page_layout(v, root, links, nodes.take(0)));
    } else {
        let before = done_upto(v, root, nodes, a, first, b, second, j - 1);
        lemma_done_blocks(v, root, links, headings, nodes, a, b, j - 1);
        assert(nodes.take(j).drop_last() =~= nodes.take(j - 1));
        assert(nodes.take(j).last() == nodes[j - 1]);
        let i = nodes[j - 1];
        assert(layout::placed(v, root, v.nodes[i]) != Placement::Paged);
        if layout::placed(v, root, v.nodes[i]) == Placement::Merged {
            lemma_merged_at(v, root, nodes, j - 1);
        }
        assert(blocks_of(done) =~= blocks_of(before) + node_section(v, root, links, i));
    }
}

proof fn lemma_second_nodes(
    v: VaultView,
    root: PathView,
    page_ids: Seq<Seq<char>>,
    page_id: Seq<char>,
    some: Seq<int>,
)
    requires
        forall|k: int|
            0 <= k < some.len() && layout::placed(v, root, v.nodes[#[trigger] some[k]])
                == Placement::Paged ==> page_ids[some[k]] != page_id,
    ensures
        on_page(content::round_nodes(v, root, Round::Content, some), page_ids, page_id)
            == merged_in(
            v,
            root,
            on_page(content::round_nodes(v, root, Round::Headings, some), page_ids, page_id),
        ),
        forall|k: int|
            0 <= k < on_page(
                content::round_nodes(v, root, Round::Headings, some),
                page_ids,
                page_id,
            ).len() ==> layout::placed(
                v,
                root,
                v.nodes[#[trigger] on_page(
                    content::round_nodes(v, root, Round::Headings, some),
                    page_ids,
                    page_id,
                )[k]],
            ) != Placement::Paged,
    decreases some.len(),
{
    if some.len() > 0 {
        let h = some.drop_last();
        let x = some.last();
        assert(some[some.len() - 1] == x);
        assert forall|k: int|
            0 <= k < h.len() && layout::placed(v, root, v.nodes[#[trigger] h[k]])
                == Placement::Paged implies page_ids[h[k]] != page_id by {
            assert(h[k] == some[k]);
        }
        lemma_second_nodes(v, root, page_ids, page_id, h);
        let first = content::round_nodes(v, root, Round::Headings, h);
        let second = content::round_nodes(v, root, Round::Content, h);
        let f = on_page(first, page_ids, page_id);
        let g = on_page(second, page_ids, page_id);
        let place = layout::placed(v, root, v.nodes[x]);
        let first_all = content::round_nodes(v, root, Round::Headings, some);
        let second_all = content::round_nodes(v, root, Round::Content, some);
        if place != Placement::Paged {
            assert(first_all == first.push(x));
            assert(first_all.drop_last() =~= first);
        }
        if place != Placement::Index {
            assert(second_all == second.push(x));
            assert(second_all.drop_last() =~= second);
        }
        let all = on_page(first_all, page_ids, page_id);
        if place != Placement::Paged && page_ids[x] == page_id {
            assert(all == f.push(x));
            assert(all.drop_last() =~= f);
        } else {
            assert(all == f);
        }
        assert forall|k: int| 0 <= k < all.len() implies layout::placed(
            v,
            root,
            v.nodes[#[trigger] all[k]],
        ) != Placement::Paged by {
            if k < f.len() {
                assert(all[k] == f[k]);
            }
        }
    }
}

/// The nodes for which a round writes on a page, in order.
pub open spec fn nodes_on(
    v: VaultView,
    root: PathView,
    round: Round,
    page_ids: Seq<Seq<char>>,
    page_id: Seq<char>,
) -> Seq<int> {
    on_page(
        content::round_nodes(v, root, round, layout::display_order(v, root)),
        page_ids,
        page_id,
    )
}

/// A page that was empty, when both rounds are done with it. `a` and `b` are
/// the IDs that Notion gave the blocks of the two rounds.
pub open spec fn stored_page(
    v: VaultView,
    root: PathView,
    page_ids: Seq<Seq<char>>,
    links: LinkMapView,
    headings: Seq<Option<Seq<char>>>,
    page_id: Seq<char>,
    a: Seq<Seq<Seq<char>>>,
    b: Seq<Seq<Seq<char>>>,
) -> PageItems {
    let first = page_writes(
        v,
        root,
        Round::Headings,
        links,
        headings,
        nodes_on(v, root, Round::Headings, page_ids, page_id),
    );
    let second = page_writes(
        v,
        root,
        Round::Content,
        links,
        headings,
        nodes_on(v, root, Round::Content, page_ids, page_id),
    );
    let empty: PageItems = Seq::empty();
    let between = notion::writer_run(empty, a, notion::writer_start(first));
    notion::writer_run(between, b, notion::writer_start(second))
}

/// Whether `a` and `b` can be the IDs of the blocks of the two rounds: one for
/// each block, no two the same, and those of the headings as they were noted.
pub open spec fn stored_ids(
    v: VaultView,
    root: PathView,
    page_ids: Seq<Seq<char>>,
    links: LinkMapView,
    headings: Seq<Option<Seq<char>>>,
    page_id: Seq<char>,
    a: Seq<Seq<Seq<char>>>,
    b: Seq<Seq<Seq<char>>>,
) -> bool {
    let nodes = nodes_on(v, root, Round::Headings, page_ids, page_id);
    let others = nodes_on(v, root, Round::Content, page_ids, page_id);
    &&& ids_match(a, page_writes(v, root, Round::Headings, links, headings, nodes))
    &&& ids_match(b, page_writes(v, root, Round::Content, links, headings, others))
    &&& ids_differ(a)
    &&& ids_differ(b)
    &&& ids_disjoint(a, b)
    &&& forall|k: int|
        0 <= k < nodes.len() && layout::placed(v, root, v.nodes[#[trigger] nodes[k]])
            == Placement::Merged ==> headings[nodes[k]] == Some(a[k][0])
}

/// When both rounds are done, a directory's page holds its nodes one after
/// another in the order in which they are shown: the index node's content, and
/// for each merged node a heading with its title and then its content.
///
/// No node with a page of its own is on the page.
pub proof fn law_directory_page(
    v: VaultView,
    root: PathView,
    page_ids: Seq<Seq<char>>,
    links: LinkMapView,
    headings: Seq<Option<Seq<char>>>,
    page_id: Seq<char>,
    a: Seq<Seq<Seq<char>>>,
    b: Seq<Seq<Seq<char>>>,
)
    requires
        forall|i: int|
            0 <= i < v.nodes.len() && layout::placed(v, root, #[trigger] v.nodes[i])
                == Placement::Paged ==> page_ids[i] != page_id,
        stored_ids(v, root, page_ids, links, headings, page_id, a, b),
    ensures
        blocks_of(stored_page(v, root, page_ids, links, headings, page_id, a, b)) == page_layout(
            v,
            root,
            links,
            nodes_on(v, root, Round::Headings, page_ids, page_id),
        ),
{
    let order = layout::display_order(v, root);
    let nodes = nodes_on(v, root, Round::Headings, page_ids, page_id);
    let others = nodes_on(v, root, Round::Content, page_ids, page_id);
    let first = page_writes(v, root, Round::Headings, links, headings, nodes);
    let second = page_writes(v, root, Round::Content, links, headings, others);
    let empty: PageItems = Seq::empty();
    layout::law_every_node_shown_once(v, root);
    assert forall|k: int|
        0 <= k < order.len() && layout::placed(v, root, v.nodes[#[trigger] order[k]])
            == Placement::Paged implies page_ids[order[k]] != page_id by {
        assert(order.contains(order[k]));
        let n = v.nodes[order[k]];
        assert(layout::placed(v, root, n) == Placement::Paged);
    }
    lemma_second_nodes(v, root, page_ids, page_id, order);
    assert(others == merged_in(v, root, nodes));
    notion::law_writer_writes_in_order(empty, first, a);
    assert(comes_from(empty, a, 0, a, 0));
    lemma_first_round(empty, a, first, 0);
    let between = notion::writes_in_chunks(empty, first, a, 0);
    assert(empty + first_from(a, first, 0) =~= first_from(a, first, 0));
    notion::law_writer_writes_in_order(between, second, b);
    lemma_second_round(v, root, links, headings, nodes, a, b, 0);
    assert(nodes.take(0) =~= Seq::<int>::empty());
    assert(merged_in(v, root, nodes.take(0)).len() == 0);
    assert(done_upto(v, root, nodes, a, first, b, second, 0) + first_from(a, first, 0)
        =~= between);
    lemma_done_blocks(v, root, links, headings, nodes, a, b, nodes.len() as int);
    assert(nodes.take(nodes.len() as int) =~= nodes);
}

/// The page of a node that has its own holds the node's content and nothing
/// else.
pub proof fn law_node_page(
    v: VaultView,
    root: PathView,
    links: LinkMapView,
    headings: Seq<Option<Seq<char>>>,
    i: int,
    ids: Seq<Seq<char>>,
)
    requires
        layout::placed(v, root, v.nodes[i]) == Placement::Paged,
        ids.len() == content::content_of(v.nodes[i], links).len(),
        ids.no_duplicates(),
    ensures
        ({
            let writes = page_writes(v, root, Round::Content, links, headings, seq![i]);
            let empty: PageItems = Seq::empty();
            let page = notion::writer_run(empty, seq![ids], notion::writer_start(writes));
            blocks_of(page) == content::content_of(v.nodes[i], links)
        }),
{
    let writes = page_writes(v, root, Round::Content, links, headings, seq![i]);
    let empty: PageItems = Seq::empty();
    let blocks = content::content_of(v.nodes[i], links);
    notion::law_writer_writes_in_order(empty, writes, seq![ids]);
    notion::law_chunks_append_in_order(
        empty,
        blocks,
        ids,
        PositionView::End,
        notion::write_appender(writes, 0),
    );
    let page = notion::writes_in_chunks(empty, writes, seq![ids], 0);
    assert(page == notion::writes_in_chunks(
        notion::appended_in_chunks(empty, blocks, ids, notion::write_appender(writes, 0)),
        writes,
        seq![ids],
        1,
    ));
    assert(blocks_of(page) =~= blocks);
}

proof fn lemma_headings_after(
    headings: Seq<Option<Seq<char>>>,
    writes: Seq<WriteView>,
    first_ids: Seq<Option<Seq<char>>>,
    k: int,
)
    requires
        0 <= k <= writes.len(),
        forall|i: int, j: int|
            #![trigger writes[i], writes[j]]
            0 <= i < j < writes.len() ==> writes[i].node != writes[j].node,
    ensures
        headings_len_kept(headings, writes, first_ids, k),
        forall|j: int|
            0 <= j < k && (#[trigger] writes[j]).heading && 0 <= writes[j].node < headings.len()
                ==> content::headings_after(headings, writes, first_ids, k)[writes[j].node]
                == first_ids[j],
        forall|i: int|
            0 <= i < headings.len() && (forall|j: int|
                0 <= j < k ==> (#[trigger] writes[j]).node != i)
                ==> #[trigger] content::headings_after(headings, writes, first_ids, k)[i]
                == headings[i],
    decreases k,
{
    if k > 0 {
        lemma_headings_after(headings, writes, first_ids, k - 1);
        let before = content::headings_after(headings, writes, first_ids, k - 1);
        let after = content::headings_after(headings, writes, first_ids, k);
        let w = writes[k - 1];
        assert forall|j: int|
            0 <= j < k && (#[trigger] writes[j]).heading && 0 <= writes[j].node
                < headings.len() implies after[writes[j].node] == first_ids[j] by {
            if j < k - 1 {
                assert(writes[j].node != writes[k - 1].node);
                assert(before[writes[j].node] == first_ids[j]);
            }
        }
        assert forall|i: int|
            0 <= i < headings.len() && (forall|j: int|
                0 <= j < k ==> (#[trigger] writes[j]).node
                    != i) implies #[trigger] after[i] == headings[i] by {
            assert(writes[k - 1].node != i);
            assert(before[i] == headings[i]);
        }
    }
}

/// Whether noting headings keeps the number of nodes.
spec fn headings_len_kept(
    headings: Seq<Option<Seq<char>>>,
    writes: Seq<WriteView>,
    first_ids: Seq<Option<Seq<char>>>,
    k: int,
) -> bool {
    content::headings_after(headings, writes, first_ids, k).len() == headings.len()
}

/// Once the first round is done with a page, the block of each heading on it is
/// noted, and nothing else has changed: the second round finds the headings of
/// all pages, in whatever order the pages were done.
pub proof fn law_headings_are_noted(
    v: VaultView,
    root: PathView,
    links: LinkMapView,
    headings: Seq<Option<Seq<char>>>,
    nodes: Seq<int>,
    ids: Seq<Seq<Seq<char>>>,
)
    requires
        headings.len() == v.nodes.len(),
        nodes.no_duplicates(),
        forall|k: int| 0 <= k < nodes.len() ==> 0 <= #[trigger] nodes[k] < v.nodes.len(),
        ids_match(ids, page_writes(v, root, Round::Headings, links, headings, nodes)),
    ensures
        ({
            let writes = page_writes(v, root, Round::Headings, links, headings, nodes);
            let end = notion::writer_end(ids, notion::writer_start(writes));
            let after = content::headings_after(
                headings,
                writes,
                end.first_ids,
                end.first_ids.len() as int,
            );
            &&& after.len() == headings.len()
            &&& forall|k: int|
                0 <= k < nodes.len() && layout::placed(v, root, v.nodes[#[trigger] nodes[k]])
                    != Placement::Index ==> after[nodes[k]] == Some(ids[k][0])
            &&& forall|i: int|
                0 <= i < headings.len() && !nodes.contains(i) ==> #[trigger] after[i]
                    == headings[i]
        }),
{
    let writes = page_writes(v, root, Round::Headings, links, headings, nodes);
    let end = notion::writer_end(ids, notion::writer_start(writes));
    notion::law_first_ids(writes, ids);
    let n = writes.len() as int;
    assert forall|i: int, j: int|
        #![trigger writes[i], writes[j]]
        0 <= i < j < writes.len() implies writes[i].node != writes[j].node by {
        assert(nodes[i] != nodes[j]);
    }
    lemma_headings_after(headings, writes, end.first_ids, n);
    let after = content::headings_after(headings, writes, end.first_ids, n);
    assert forall|k: int|
        0 <= k < nodes.len() && layout::placed(v, root, v.nodes[#[trigger] nodes[k]])
            != Placement::Index implies after[nodes[k]] == Some(ids[k][0]) by {
        law_heading_is_one_block(v.nodes[nodes[k]]);
        assert(writes[k].heading && writes[k].node == nodes[k]);
        assert(ids[k].len() == writes[k].blocks.len());
        assert(end.first_ids[k] == notion::first_of(ids[k]));
    }
    assert forall|i: int|
        0 <= i < headings.len() && !nodes.contains(i) implies #[trigger] after[i]
        == headings[i] by {
        assert forall|j: int| 0 <= j < n implies (#[trigger] writes[j]).node != i by {
            assert(nodes.contains(nodes[j]));
        }
    }
}

// ---------------------------------------------------------------------
// Reading back
// ---------------------------------------------------------------------

proof fn lemma_page_index_first(pages: Seq<(Seq<char>, int)>, page: Seq<char>, k: int)
    requires
        0 <= k < pages.len(),
        pages[k].0 == page,
    ensures
        content::page_index(pages, page) <= k,
    decreases pages.len(),
{
    if pages.first().0 != page {
        assert(pages.drop_first()[k - 1] == pages[k]);
        lemma_page_index_first(pages.drop_first(), page, k - 1);
    }
}

/// No page is read back twice, and every node's page is read back.
pub proof fn law_pages_read_once(nodes: Seq<NodeView>, links: LinkMapView, k: int)
    requires
        0 <= k <= nodes.len(),
    ensures
        ({
            let pages = content::pages_to_read(nodes, links, k);
            &&& forall|p: int, q: int|
                #![trigger pages[p], pages[q]]
                0 <= p < q < pages.len() ==> pages[p].0 != pages[q].0
            &&& forall|i: int|
                0 <= i < k ==> 0 <= content::page_index(
                    pages,
                    content::page_of(#[trigger] nodes[i], links),
                ) < pages.len()
        }),
    decreases k,
{
    let pages = content::pages_to_read(nodes, links, k);
    assert forall|i: int| 0 <= i < k implies 0 <= content::page_index(
        pages,
        content::page_of(#[trigger] nodes[i], links),
    ) < pages.len() by {
        content::lemma_pages_read(nodes, links, i, k);
    }
    if k > 0 {
        let head = content::pages_to_read(nodes, links, k - 1);
        let page = content::page_of(nodes[k - 1], links);
        law_pages_read_once(nodes, links, k - 1);
        assert forall|p: int, q: int|
            #![trigger pages[p], pages[q]]
            0 <= p < q < pages.len() implies pages[p].0 != pages[q].0 by {
            assert(pages[p] == head[p]);
            if q < head.len() {
                assert(pages[q] == head[q]);
            } else if head[p].0 == page {
                lemma_page_index_first(head, page, p);
            }
        }
    }
}

/// What was found on the page of the `i`th node.
pub open spec fn found_for(
    nodes: Seq<NodeView>,
    links: LinkMapView,
    found: Seq<FoundView>,
    i: int,
) -> FoundView {
    let pages = content::pages_to_read(nodes, links, nodes.len() as int);
    found[content::page_index(pages, content::page_of(nodes[i], links))]
}

/// Whether every link of the `i`th node was found on its page.
pub open spec fn links_found(
    nodes: Seq<NodeView>,
    links: LinkMapView,
    found: Seq<FoundView>,
    i: int,
) -> bool {
    forall|j: int|
        0 <= j < nodes[i].links.len() ==> validate::link_present(
            #[trigger] nodes[i].links[j],
            links,
            found_for(nodes, links, found, i),
        )
}

proof fn lemma_failed_nodes(
    nodes: Seq<NodeView>,
    links: LinkMapView,
    found: Seq<FoundView>,
    k: int,
)
    requires
        0 <= k <= nodes.len(),
    ensures
        content::failed_nodes(nodes, links, found, k).len() == 0 <==> forall|i: int|
            0 <= i < k ==> #[trigger] links_found(nodes, links, found, i),
    decreases k,
{
    if k > 0 {
        let n = nodes[k - 1];
        lemma_failed_nodes(nodes, links, found, k - 1);
        validate::law_missing_links(n.links, links, found_for(nodes, links, found, k - 1));
        let result = validate::checked(n, links, found_for(nodes, links, found, k - 1));
        assert(result.missing.len() == 0 <==> links_found(nodes, links, found, k - 1));
    }
}

/// Nothing is reported exactly when every link of every node was found on the
/// page that the node is on.
pub proof fn law_post_validation(nodes: Seq<NodeView>, links: LinkMapView, found: Seq<FoundView>)
    ensures
        content::failed_nodes(nodes, links, found, nodes.len() as int).len() == 0 <==> forall|
            i: int,
        |
            0 <= i < nodes.len() ==> #[trigger] links_found(nodes, links, found, i),
{
    lemma_failed_nodes(nodes, links, found, nodes.len() as int);
}

/// Whether a block is small enough for Notion to take all of its text.
pub open spec fn fits(b: OrgBlockView, links: LinkMapView) -> bool {
    let spans = org_parser::spans_of_block(b);
    &&& converter::all_runs(spans, links).len() <= MAX_RICH_TEXT_ITEMS
    &&& transformers::all_rewritten(converter::rich_text_spec(spans, links)).len()
        <= MAX_RICH_TEXT_ITEMS
}

/// Whether a block is among the children read back.
pub open spec fn read_back(children: Seq<ChildBlockView>, b: BlockView) -> bool {
    exists|c: int| 0 <= c < children.len() && (#[trigger] children[c]).block == b
}

/// Whether the content of a node is among the children read back.
pub open spec fn content_read_back(
    children: Seq<ChildBlockView>,
    n: NodeView,
    links: LinkMapView,
) -> bool {
    forall|b: int|
        0 <= b < content::content_of(n, links).len() ==> read_back(
            children,
            #[trigger] content::content_of(n, links)[b],
        )
}

proof fn lemma_layout_holds(
    v: VaultView,
    root: PathView,
    links: LinkMapView,
    nodes: Seq<int>,
    k: int,
    b: int,
)
    requires
        0 <= k < nodes.len(),
        0 <= b < content::content_of(v.nodes[nodes[k]], links).len(),
    ensures
        page_layout(v, root, links, nodes).contains(
            content::content_of(v.nodes[nodes[k]], links)[b],
        ),
    decreases nodes.len(),
{
    let h = nodes.drop_last();
    let before = page_layout(v, root, links, h);
    let section = node_section(v, root, links, nodes.last());
    let all = before + section;
    let x = content::content_of(v.nodes[nodes[k]], links)[b];
    if k < h.len() {
        assert(h[k] == nodes[k]);
        lemma_layout_holds(v, root, links, h, k, b);
        let m = choose|m: int| 0 <= m < before.len() && before[m] == x;
        assert(all[m] == x);
    } else {
        let own = content::content_of(v.nodes[nodes[k]], links);
        let m = section.len() - own.len() + b;
        assert(section[m] == x);
        assert(all[before.len() + m] == x);
    }
}

/// A directory's page that is read back as it was laid out holds the content of
/// each node on it.
pub proof fn law_layout_holds_content(
    v: VaultView,
    root: PathView,
    links: LinkMapView,
    nodes: Seq<int>,
    children: Seq<ChildBlockView>,
    k: int,
)
    requires
        0 <= k < nodes.len(),
        children.map_values(|c: ChildBlockView| c.block) == page_layout(v, root, links, nodes),
    ensures
        content_read_back(children, v.nodes[nodes[k]], links),
{
    let n = v.nodes[nodes[k]];
    let laid = children.map_values(|c: ChildBlockView| c.block);
    assert forall|b: int| 0 <= b < content::content_of(n, links).len() implies read_back(
        children,
        #[trigger] content::content_of(n, links)[b],
    ) by {
        lemma_layout_holds(v, root, links, nodes, k, b);
        let x = content::content_of(n, links)[b];
        let m = choose|m: int| 0 <= m < laid.len() && laid[m] == x;
        assert(children[m].block == x);
    }
}

/// Where the content of a node is read back as it was written, a mention is
/// found for each node that it links to.
pub proof fn law_links_survive(
    n: NodeView,
    links: LinkMapView,
    children: Seq<ChildBlockView>,
    id: Seq<char>,
    page_id: Seq<char>,
)
    requires
        org_parser::blocks_link_to(n.blocks, id),
        links.dom().contains(id),
        links[id] == LinkTargetView::Page(page_id),
        forall|b: int| 0 <= b < n.blocks.len() ==> fits(#[trigger] n.blocks[b], links),
        content_read_back(children, n, links),
    ensures
        validate::link_present(id, links, validate::found_on(children)),
{
    let (b, k) = choose|b: int, k: int| #[trigger]
        org_parser::span_links_at(n.blocks, b, k, id);
    let block = n.blocks[b];
    let spans = org_parser::spans_of_block(block);
    assert(fits(block, links));
    converter::law_link_becomes_mention(spans, links, k, id, page_id);
    let runs = converter::rich_text_spec(spans, links);
    let converted = converter::block_spec(block, links);
    let run = converter::mention_run(page_id);
    assert(blocks::inline_text(converted) == Some(runs));
    transformers::law_mentions_survive(converted, runs, run);
    let after = transformers::all_rewritten(runs);
    let out = content::rendered(n.blocks, links);
    assert(out[b] == transformers::anchored(converted));
    law_unreviewed_comes_first(n, links);
    let all = content::content_of(n, links);
    let at = if org_parser::carries_tag(n, "unreviewed"@) {
        b + 1
    } else {
        b
    };
    assert(all[at] == out[b]);
    assert(read_back(children, all[at]));
    let c = choose|c: int| 0 <= c < children.len() && (#[trigger] children[c]).block == out[b];
    let j = choose|j: int| 0 <= j < after.len() && after[j] == run;
    assert(validate::mention_at(children, c, j, page_id));
    validate::law_found_links(children);
    assert(validate::mentions_page(children, page_id));
    assert(validate::found_on(children).page_ids.contains(page_id));
}

/// A snapshot whose pages are read back as they were written passes: where
/// every link resolves, no link is reported as missing.
///
/// `children[p]` is what is read back of the `p`th page; each page may hold
/// more than the nodes' content. A block whose text exceeds what Notion takes
/// is cut short, so that links in it may be lost; such blocks are left out.
pub proof fn law_faithful_snapshot_passes(
    v: VaultView,
    root: PathView,
    page_ids: Seq<Seq<char>>,
    children: Seq<Seq<ChildBlockView>>,
)
    requires
        vault::unique_ids(v.nodes),
        validate::all_resolve(v.nodes),
        forall|i: int|
            0 <= i < v.nodes.len() ==> (#[trigger] v.nodes[i]).links == org_parser::first_seen(
                org_parser::block_links(v.nodes[i].blocks),
            ),
        forall|i: int, b: int|
            #![trigger v.nodes[i].blocks[b]]
            0 <= i < v.nodes.len() && 0 <= b < v.nodes[i].blocks.len() ==> fits(
                v.nodes[i].blocks[b],
                content::page_links(v, root, page_ids),
            ),
        children.len() == content::pages_to_read(
            v.nodes,
            content::page_links(v, root, page_ids),
            v.nodes.len() as int,
        ).len(),
        ({
            let links = content::page_links(v, root, page_ids);
            let pages = content::pages_to_read(v.nodes, links, v.nodes.len() as int);
            forall|i: int|
                0 <= i < v.nodes.len() ==> content_read_back(
                    children[content::page_index(pages, content::page_of(v.nodes[i], links))],
                    #[trigger] v.nodes[i],
                    links,
                )
        }),
    ensures
        ({
            let links = content::page_links(v, root, page_ids);
            let found = children.map_values(
                |c: Seq<ChildBlockView>| validate::found_on(c),
            );
            content::failed_nodes(v.nodes, links, found, v.nodes.len() as int).len() == 0
        }),
{
    let links = content::page_links(v, root, page_ids);
    let found = children.map_values(|c: Seq<ChildBlockView>| validate::found_on(c));
    let pages = content::pages_to_read(v.nodes, links, v.nodes.len() as int);
    law_links_point_at_pages(v, root, page_ids);
    law_post_validation(v.nodes, links, found);
    assert forall|i: int| 0 <= i < v.nodes.len() implies #[trigger] links_found(
        v.nodes,
        links,
        found,
        i,
    ) by {
        let n = v.nodes[i];
        let p = content::page_index(pages, content::page_of(n, links));
        content::lemma_pages_read(v.nodes, links, i, v.nodes.len() as int);
        assert(found_for(v.nodes, links, found, i) == validate::found_on(children[p]));
        assert(content_read_back(children[p], n, links));
        org_parser::law_first_seen(org_parser::block_links(n.blocks));
        assert forall|j: int| 0 <= j < n.links.len() implies validate::link_present(
            #[trigger] n.links[j],
            links,
            validate::found_on(children[p]),
        ) by {
            let id = n.links[j];
            assert(n.links.contains(id));
            assert(org_parser::first_seen(org_parser::block_links(n.blocks)).contains(id));
            org_parser::lemma_block_links(n.blocks, id);
            assert(validate::known(v.nodes, id));
            let t = choose|t: int| 0 <= t < v.nodes.len() && #[trigger] v.nodes[t].id == id;
            let target = v.nodes[t];
            assert(links[target.id] == LinkTargetView::Page(page_ids[t]));
            assert forall|b: int| 0 <= b < n.blocks.len() implies fits(
                #[trigger] n.blocks[b],
                links,
            ) by {
                assert(fits(v.nodes[i].blocks[b], links));
            }
            law_links_survive(n, links, children[p], id, page_ids[t]);
        }
    }
}

// ---------------------------------------------------------------------
// From writing to validation
// ---------------------------------------------------------------------

/// Whether a node with a page of its own is alone on it.
pub open spec fn own_pages(v: VaultView, root: PathView, page_ids: Seq<Seq<char>>) -> bool {
    forall|i: int, j: int|
        #![trigger page_ids[i], page_ids[j]]
        0 <= i < v.nodes.len() && 0 <= j < v.nodes.len() && i != j && page_ids[i] == page_ids[j]
            ==> layout::placed(v, root, v.nodes[i]) != Placement::Paged
}

/// Where the pages that were created have different IDs, a node with a page of
/// its own is alone on it.
pub proof fn law_own_pages(
    v: VaultView,
    root: PathView,
    title: Seq<char>,
    created: Seq<Seq<char>>,
)
    requires
        created.no_duplicates(),
        created.len() == pages::planned_pages(v, root, title).len(),
    ensures
        own_pages(
            v,
            root,
            Seq::new(v.nodes.len(), |i: int| created[pages::page_of_node(v, root, i)]),
        ),
{
    let page_ids = Seq::new(v.nodes.len(), |i: int| created[pages::page_of_node(v, root, i)]);
    assert forall|i: int, j: int|
        #![trigger page_ids[i], page_ids[j]]
        0 <= i < v.nodes.len() && 0 <= j < v.nodes.len() && i != j && page_ids[i]
            == page_ids[j] implies layout::placed(v, root, v.nodes[i]) != Placement::Paged by {
        pages::lemma_node_has_page(v, root, title, i);
        pages::lemma_node_has_page(v, root, title, j);
        pages::law_pages_are_shared_within_a_directory(v, root, i, j);
    }
}

proof fn lemma_on_page(some: Seq<int>, page_ids: Seq<Seq<char>>, page_id: Seq<char>)
    ensures
        forall|i: int| #[trigger]
            on_page(some, page_ids, page_id).contains(i) <==> some.contains(i) && page_ids[i]
                == page_id,
        some.no_duplicates() ==> on_page(some, page_ids, page_id).no_duplicates(),
    decreases some.len(),
{
    if some.len() > 0 {
        let h = some.drop_last();
        let x = some.last();
        let f = on_page(h, page_ids, page_id);
        let r = on_page(some, page_ids, page_id);
        lemma_on_page(h, page_ids, page_id);
        assert(some[some.len() - 1] == x);
        assert forall|i: int| #[trigger] r.contains(i) <==> some.contains(i) && page_ids[i]
            == page_id by {
            assert(f.contains(i) <==> h.contains(i) && page_ids[i] == page_id);
            if h.contains(i) {
                let k = choose|k: int| 0 <= k < h.len() && h[k] == i;
                assert(some[k] == i);
            }
            if some.contains(i) && i != x {
                let k = choose|k: int| 0 <= k < some.len() && some[k] == i;
                assert(h[k] == i);
            }
            if f.contains(i) {
                let k = choose|k: int| 0 <= k < f.len() && f[k] == i;
                assert(r[k] == i);
            }
            if i == x && page_ids[x] == page_id {
                assert(r[r.len() - 1] == x);
            }
            if r.contains(i) && !f.contains(i) {
                let k = choose|k: int| 0 <= k < r.len() && r[k] == i;
                if k < f.len() {
                    assert(f[k] == i);
                }
            }
        }
        if some.no_duplicates() {
            assert forall|a: int, b: int|
                0 <= a < h.len() && 0 <= b < h.len() && a != b implies h[a] != h[b] by {
                assert(some[a] != some[b]);
            }
            assert forall|a: int, b: int|
                0 <= a < r.len() && 0 <= b < r.len() && a != b implies r[a] != r[b] by {
                if a < f.len() {
                    assert(f.contains(f[a]));
                }
                if b < f.len() {
                    assert(f.contains(f[b]));
                }
                if h.contains(x) {
                    let k = choose|k: int| 0 <= k < h.len() && h[k] == x;
                    assert(some[k] == some[some.len() - 1]);
                }
            }
        }
    }
}

proof fn lemma_nodes_on(
    v: VaultView,
    root: PathView,
    round: Round,
    page_ids: Seq<Seq<char>>,
    page_id: Seq<char>,
)
    ensures
        nodes_on(v, root, round, page_ids, page_id).no_duplicates(),
        forall|i: int| #[trigger]
            nodes_on(v, root, round, page_ids, page_id).contains(i) <==> 0 <= i < v.nodes.len()
                && content::in_round(v, root, round, i) && page_ids[i] == page_id,
{
    let order = layout::display_order(v, root);
    layout::law_every_node_shown_once(v, root);
    lemma_round_nodes(v, root, round, order);
    lemma_on_page(content::round_nodes(v, root, round, order), page_ids, page_id);
    assert forall|i: int| #[trigger]
        nodes_on(v, root, round, page_ids, page_id).contains(i) <==> 0 <= i < v.nodes.len()
            && content::in_round(v, root, round, i) && page_ids[i] == page_id by {
        assert(content::round_nodes(v, root, round, order).contains(i) <==> order.contains(i)
            && content::in_round(v, root, round, i));
        assert(order.contains(i) <==> 0 <= i < v.nodes.len());
    }
}

/// A page that is read back as it was stored holds the content of every node on
/// it, whether the page is the node's own or its directory's.
pub proof fn law_stored_page_holds_content(
    v: VaultView,
    root: PathView,
    page_ids: Seq<Seq<char>>,
    links: LinkMapView,
    headings: Seq<Option<Seq<char>>>,
    i: int,
    a: Seq<Seq<Seq<char>>>,
    b: Seq<Seq<Seq<char>>>,
    children: Seq<ChildBlockView>,
)
    requires
        0 <= i < v.nodes.len(),
        own_pages(v, root, page_ids),
        stored_ids(v, root, page_ids, links, headings, page_ids[i], a, b),
        children.map_values(|c: ChildBlockView| c.block) == blocks_of(
            stored_page(v, root, page_ids, links, headings, page_ids[i], a, b),
        ),
    ensures
        content_read_back(children, v.nodes[i], links),
{
    let page_id = page_ids[i];
    let n = v.nodes[i];
    let nodes = nodes_on(v, root, Round::Headings, page_ids, page_id);
    let others = nodes_on(v, root, Round::Content, page_ids, page_id);
    lemma_nodes_on(v, root, Round::Headings, page_ids, page_id);
    lemma_nodes_on(v, root, Round::Content, page_ids, page_id);
    let laid = children.map_values(|c: ChildBlockView| c.block);
    if layout::placed(v, root, n) == Placement::Paged {
        assert(nodes =~= Seq::<int>::empty()) by {
            if nodes.len() > 0 {
                let j = nodes[0];
                assert(nodes.contains(j));
                assert(page_ids[i] == page_ids[j]);
            }
        }
        assert(others =~= seq![i]) by {
            assert(others.contains(i));
            assert forall|k: int| 0 <= k < others.len() implies others[k] == i by {
                let j = others[k];
                assert(others.contains(j));
                assert(page_ids[i] == page_ids[j]);
            }
        }
        let first = page_writes(v, root, Round::Headings, links, headings, nodes);
        assert(first =~= Seq::<WriteView>::empty());
        let empty: PageItems = Seq::empty();
        notion::law_writer_writes_in_order(empty, first, a);
        assert(notion::writes_in_chunks(empty, first, a, 0) == empty);
        assert(b =~= seq![b[0]]);
        let ids = b[0];
        assert(page_writes(v, root, Round::Content, links, headings, others)[0].blocks
            == content::content_of(n, links));
        assert(ids.no_duplicates()) by {
            assert forall|x: int, y: int|
                0 <= x < ids.len() && 0 <= y < ids.len() && x != y implies ids[x] != ids[y] by {
                assert(b[0][x] != b[0][y]);
            }
        }
        law_node_page(v, root, links, headings, i, ids);
        assert(laid == content::content_of(n, links));
        assert forall|k: int| 0 <= k < content::content_of(n, links).len() implies read_back(
            children,
            #[trigger] content::content_of(n, links)[k],
        ) by {
            assert(children[k].block == laid[k]);
        }
    } else {
        assert forall|j: int|
            0 <= j < v.nodes.len() && layout::placed(v, root, #[trigger] v.nodes[j])
                == Placement::Paged implies page_ids[j] != page_id by {
            if page_ids[j] == page_id {
                assert(page_ids[j] == page_ids[i]);
            }
        }
        law_directory_page(v, root, page_ids, links, headings, page_id, a, b);
        assert(nodes.contains(i));
        let k = choose|k: int| 0 <= k < nodes.len() && nodes[k] == i;
        law_layout_holds_content(v, root, links, nodes, children, k);
    }
}

/// A vault that was scanned and whose links were found to resolve is as a
/// publication needs it: no ID occurs twice, every link resolves, and each node
/// lists what its blocks link to.
pub proof fn law_checked_vault(
    vault_dir: PathView,
    paths: Seq<PathView>,
    files: Seq<Result<Seq<char>, FsErrorView>>,
    markers: Seq<MarkerReply>,
    v: VaultView,
)
    requires
        vault::scan_spec(vault_dir, Ok(paths), files, markers) == Ok::<VaultView, VaultErrorView>(
            v,
        ),
        files.len() == paths.len(),
        run::broken_links(v).len() == 0,
    ensures
        vault::unique_ids(v.nodes),
        validate::all_resolve(v.nodes),
        forall|i: int|
            0 <= i < v.nodes.len() ==> (#[trigger] v.nodes[i]).links == org_parser::first_seen(
                org_parser::block_links(v.nodes[i].blocks),
            ),
{
    vault::law_scanned_nodes(vault_dir, paths, files, markers, v);
    validate::law_pre_validation(v.nodes);
    assert forall|i: int| 0 <= i < v.nodes.len() implies (#[trigger] v.nodes[i]).links
        == org_parser::first_seen(org_parser::block_links(v.nodes[i].blocks)) by {
        assert(vault::is_node_of(v.nodes[i], vault::in_order(paths)[i], files[i]));
    }
}

/// A snapshot that is stored as it was sent, and read back as it was stored,
/// passes its validation: where every link resolves in the vault, no link is
/// reported as missing.
///
/// `a[p]` and `b[p]` are the IDs of the blocks of the `p`th page that is read
/// back, and `children[p]` its blocks. Blocks whose text exceeds what Notion
/// takes are left out, as their links may be cut off.
pub proof fn law_stored_snapshot_passes(
    v: VaultView,
    root: PathView,
    page_ids: Seq<Seq<char>>,
    headings: Seq<Option<Seq<char>>>,
    a: Seq<Seq<Seq<Seq<char>>>>,
    b: Seq<Seq<Seq<Seq<char>>>>,
    children: Seq<Seq<ChildBlockView>>,
)
    requires
        vault::unique_ids(v.nodes),
        validate::all_resolve(v.nodes),
        own_pages(v, root, page_ids),
        forall|i: int|
            0 <= i < v.nodes.len() ==> (#[trigger] v.nodes[i]).links == org_parser::first_seen(
                org_parser::block_links(v.nodes[i].blocks),
            ),
        forall|i: int, k: int|
            #![trigger v.nodes[i].blocks[k]]
            0 <= i < v.nodes.len() && 0 <= k < v.nodes[i].blocks.len() ==> fits(
                v.nodes[i].blocks[k],
                content::page_links(v, root, page_ids),
            ),
        ({
            let links = content::page_links(v, root, page_ids);
            let pages = content::pages_to_read(v.nodes, links, v.nodes.len() as int);
            &&& children.len() == pages.len()
            &&& forall|p: int|
                0 <= p < pages.len() ==> stored_ids(
                    v,
                    root,
                    page_ids,
                    links,
                    headings,
                    (#[trigger] pages[p]).0,
                    a[p],
                    b[p],
                ) && children[p].map_values(|c: ChildBlockView| c.block) == blocks_of(
                    stored_page(v, root, page_ids, links, headings, pages[p].0, a[p], b[p]),
                )
        }),
    ensures
        ({
            let links = content::page_links(v, root, page_ids);
            let found = children.map_values(|c: Seq<ChildBlockView>| validate::found_on(c));
            content::failed_nodes(v.nodes, links, found, v.nodes.len() as int).len() == 0
        }),
{
    let links = content::page_links(v, root, page_ids);
    let pages = content::pages_to_read(v.nodes, links, v.nodes.len() as int);
    law_links_point_at_pages(v, root, page_ids);
    assert forall|i: int| 0 <= i < v.nodes.len() implies content_read_back(
        children[content::page_index(pages, content::page_of(v.nodes[i], links))],
        #[trigger] v.nodes[i],
        links,
    ) by {
        let page = content::page_of(v.nodes[i], links);
        let p = content::page_index(pages, page);
        assert(page == page_ids[i]);
        content::lemma_pages_read(v.nodes, links, i, v.nodes.len() as int);
        content::lemma_page_index(pages, page);
        assert(pages[p].0 == page);
        law_stored_page_holds_content(
            v,
            root,
            page_ids,
            links,
            headings,
            i,
            a[p],
            b[p],
            children[p],
        );
    }
    law_faithful_snapshot_passes(v, root, page_ids, children);
}

// ---------------------------------------------------------------------
// A whole publication
// ---------------------------------------------------------------------

/// The outcome of a page whose writes all went through, where `ids[k]` are the
/// IDs that Notion gave the blocks of the `k`th write.
pub open spec fn done(writes: Seq<WriteView>, ids: Seq<Seq<Seq<char>>>) -> OutcomeView {
    OutcomeView { writer: notion::writer_end(ids, notion::writer_start(writes)), error: None }
}

/// The outcomes of jobs that all went through, where `ids[g]` are the IDs of the
/// blocks of the `g`th job.
pub open spec fn all_done(jobs: Seq<JobView>, ids: Seq<Seq<Seq<Seq<char>>>>) -> Seq<OutcomeView> {
    Seq::new(jobs.len(), |g: int| done(jobs[g].writes, ids[g]))
}

/// Whether each job was given one ID for each of its blocks, and none twice on
/// a page.
pub open spec fn ids_given(jobs: Seq<JobView>, ids: Seq<Seq<Seq<Seq<char>>>>) -> bool {
    &&& ids.len() == jobs.len()
    &&& forall|g: int|
        0 <= g < jobs.len() ==> ids_match(#[trigger] ids[g], jobs[g].writes) && ids_differ(ids[g])
}

/// What the first round of a snapshot writes.
pub open spec fn first_jobs(v: VaultView, root: PathView, page_ids: Seq<Seq<char>>) -> Seq<
    JobView,
> {
    content::round_jobs(
        v,
        root,
        Round::Headings,
        page_ids,
        content::page_links(v, root, page_ids),
        content::no_headings(v.nodes.len()),
    )
}

/// The heading blocks that are known when the first round went through.
pub open spec fn first_headings(
    v: VaultView,
    root: PathView,
    page_ids: Seq<Seq<char>>,
    a: Seq<Seq<Seq<Seq<char>>>>,
) -> Seq<Option<Seq<char>>> {
    let jobs = first_jobs(v, root, page_ids);
    publish::noted(content::no_headings(v.nodes.len()), all_done(jobs, a), jobs.len() as int)
}

/// What the second round of a snapshot writes, when the first went through.
pub open spec fn second_jobs(
    v: VaultView,
    root: PathView,
    page_ids: Seq<Seq<char>>,
    a: Seq<Seq<Seq<Seq<char>>>>,
) -> Seq<JobView> {
    content::round_jobs(
        v,
        root,
        Round::Content,
        page_ids,
        content::page_links(v, root, page_ids),
        first_headings(v, root, page_ids, a),
    )
}

/// Whether the blocks of the headings of nodes are known, where `ids[k]` are the
/// IDs of the blocks that the first round wrote for the `k`th node.
pub open spec fn headings_known(
    v: VaultView,
    root: PathView,
    headings: Seq<Option<Seq<char>>>,
    nodes: Seq<int>,
    ids: Seq<Seq<Seq<char>>>,
) -> bool {
    forall|k: int|
        0 <= k < nodes.len() && layout::placed(v, root, v.nodes[#[trigger] nodes[k]])
            != Placement::Index ==> headings[nodes[k]] == Some(ids[k][0])
}

proof fn lemma_noted(
    v: VaultView,
    root: PathView,
    page_ids: Seq<Seq<char>>,
    a: Seq<Seq<Seq<Seq<char>>>>,
    m: int,
)
    requires
        ids_given(first_jobs(v, root, page_ids), a),
        0 <= m <= a.len(),
    ensures
        ({
            let jobs = first_jobs(v, root, page_ids);
            let headings = publish::noted(
                content::no_headings(v.nodes.len()),
                all_done(jobs, a),
                m,
            );
            &&& headings.len() == v.nodes.len()
            &&& forall|g: int|
                0 <= g < m ==> headings_known(
                    v,
                    root,
                    headings,
                    nodes_on(v, root, Round::Headings, page_ids, (#[trigger] jobs[g]).page_id),
                    a[g],
                )
        }),
    decreases m,
{
    if m > 0 {
        lemma_noted(v, root, page_ids, a, m - 1);
        let links = content::page_links(v, root, page_ids);
        let none = content::no_headings(v.nodes.len());
        let jobs = first_jobs(v, root, page_ids);
        let outcomes = all_done(jobs, a);
        let before = publish::noted(none, outcomes, m - 1);
        let after = publish::noted(none, outcomes, m);
        law_jobs(v, root, Round::Headings, page_ids, links, none);
        let page_id = jobs[m - 1].page_id;
        let nodes = nodes_on(v, root, Round::Headings, page_ids, page_id);
        lemma_nodes_on(v, root, Round::Headings, page_ids, page_id);
        assert forall|k: int| 0 <= k < nodes.len() implies 0 <= #[trigger] nodes[k]
            < v.nodes.len() by {
            assert(nodes.contains(nodes[k]));
        }
        let writes = page_writes(v, root, Round::Headings, links, before, nodes);
        assert(ids_match(a[m - 1], jobs[m - 1].writes));
        assert(writes =~= jobs[m - 1].writes);
        notion::law_first_ids(writes, a[m - 1]);
        law_headings_are_noted(v, root, links, before, nodes, a[m - 1]);
        assert(outcomes[m - 1] == done(writes, a[m - 1]));
        assert forall|g: int| 0 <= g < m implies headings_known(
            v,
            root,
            after,
            nodes_on(v, root, Round::Headings, page_ids, (#[trigger] jobs[g]).page_id),
            a[g],
        ) by {
            if g < m - 1 {
                let others = nodes_on(v, root, Round::Headings, page_ids, jobs[g].page_id);
                lemma_nodes_on(v, root, Round::Headings, page_ids, jobs[g].page_id);
                assert(jobs[g].page_id != jobs[m - 1].page_id);
                assert(headings_known(v, root, before, others, a[g]));
                assert forall|k: int|
                    0 <= k < others.len() && layout::placed(v, root, v.nodes[#[trigger] others[k]])
                        != Placement::Index implies after[others[k]] == Some(a[g][k][0]) by {
                    assert(others.contains(others[k]));
                    assert(!nodes.contains(others[k]));
                    assert(before[others[k]] == Some(a[g][k][0]));
                }
            }
        }
    }
}

/// When the first round went through, the blocks of the headings of all pages
/// are known, each under its own node.
pub proof fn law_all_headings_are_noted(
    v: VaultView,
    root: PathView,
    page_ids: Seq<Seq<char>>,
    a: Seq<Seq<Seq<Seq<char>>>>,
)
    requires
        ids_given(first_jobs(v, root, page_ids), a),
    ensures
        first_headings(v, root, page_ids, a).len() == v.nodes.len(),
        forall|g: int|
            0 <= g < a.len() ==> headings_known(
                v,
                root,
                first_headings(v, root, page_ids, a),
                nodes_on(
                    v,
                    root,
                    Round::Headings,
                    page_ids,
                    (#[trigger] first_jobs(v, root, page_ids)[g]).page_id,
                ),
                a[g],
            ),
{
    lemma_noted(v, root, page_ids, a, a.len() as int);
}

/// Whether the `g`th job is that of a page.
pub open spec fn job_for(jobs: Seq<JobView>, page_id: Seq<char>, g: int) -> bool {
    0 <= g < jobs.len() && jobs[g].page_id == page_id
}

/// What jobs write on a page.
pub open spec fn writes_on(jobs: Seq<JobView>, page_id: Seq<char>) -> Seq<WriteView> {
    if exists|g: int| job_for(jobs, page_id, g) {
        jobs[choose|g: int| job_for(jobs, page_id, g)].writes
    } else {
        Seq::<WriteView>::empty()
    }
}

/// The IDs that the blocks of jobs got on a page.
pub open spec fn ids_on(
    jobs: Seq<JobView>,
    ids: Seq<Seq<Seq<Seq<char>>>>,
    page_id: Seq<char>,
) -> Seq<Seq<Seq<char>>> {
    if exists|g: int| job_for(jobs, page_id, g) {
        ids[choose|g: int| job_for(jobs, page_id, g)]
    } else {
        Seq::<Seq<Seq<char>>>::empty()
    }
}

/// A page that was empty, when all jobs of both rounds went through.
pub open spec fn published_page(
    first: Seq<JobView>,
    a: Seq<Seq<Seq<Seq<char>>>>,
    second: Seq<JobView>,
    b: Seq<Seq<Seq<Seq<char>>>>,
    page_id: Seq<char>,
) -> PageItems {
    let empty: PageItems = Seq::empty();
    let between = notion::writer_run(
        empty,
        ids_on(first, a, page_id),
        notion::writer_start(writes_on(first, page_id)),
    );
    notion::writer_run(
        between,
        ids_on(second, b, page_id),
        notion::writer_start(writes_on(second, page_id)),
    )
}

proof fn lemma_writes_on(
    v: VaultView,
    root: PathView,
    round: Round,
    page_ids: Seq<Seq<char>>,
    links: LinkMapView,
    headings: Seq<Option<Seq<char>>>,
    page_id: Seq<char>,
)
    ensures
        writes_on(content::round_jobs(v, root, round, page_ids, links, headings), page_id)
            == page_writes(
            v,
            root,
            round,
            links,
            headings,
            nodes_on(v, root, round, page_ids, page_id),
        ),
{
    let jobs = content::round_jobs(v, root, round, page_ids, links, headings);
    let some = content::round_nodes(v, root, round, layout::display_order(v, root));
    let nodes = nodes_on(v, root, round, page_ids, page_id);
    if exists|g: int| job_for(jobs, page_id, g) {
        law_jobs(v, root, round, page_ids, links, headings);
    } else {
        if nodes.len() > 0 {
            lemma_on_page(some, page_ids, page_id);
            assert(nodes.contains(nodes[0]));
            let k = choose|k: int| 0 <= k < some.len() && some[k] == nodes[0];
            law_grouping(some, page_ids);
            let groups = content::grouped(some, page_ids);
            lemma_group_index(groups, page_ids[some[k]]);
            assert(job_for(jobs, page_id, content::group_index(groups, page_id)));
        }
        assert(page_writes(v, root, round, links, headings, nodes) =~= Seq::<WriteView>::empty());
    }
}

/// When both rounds went through, the blocks of the headings that were noted are
/// those that stand on each page, and the page is what [`stored_page`] makes of
/// the IDs that its blocks got.
pub proof fn law_published_page(
    v: VaultView,
    root: PathView,
    page_ids: Seq<Seq<char>>,
    a: Seq<Seq<Seq<Seq<char>>>>,
    b: Seq<Seq<Seq<Seq<char>>>>,
    page_id: Seq<char>,
)
    requires
        ids_given(first_jobs(v, root, page_ids), a),
        ids_given(second_jobs(v, root, page_ids, a), b),
        forall|g: int, h: int|
            0 <= g < a.len() && 0 <= h < b.len() ==> #[trigger] ids_disjoint(a[g], b[h]),
    ensures
        ({
            let first = first_jobs(v, root, page_ids);
            let second = second_jobs(v, root, page_ids, a);
            let headings = first_headings(v, root, page_ids, a);
            let links = content::page_links(v, root, page_ids);
            let (x, y) = (ids_on(first, a, page_id), ids_on(second, b, page_id));
            &&& stored_ids(v, root, page_ids, links, headings, page_id, x, y)
            &&& published_page(first, a, second, b, page_id) == stored_page(
                v,
                root,
                page_ids,
                links,
                headings,
                page_id,
                x,
                y,
            )
        }),
{
    let none = content::no_headings(v.nodes.len());
    let first = first_jobs(v, root, page_ids);
    let second = second_jobs(v, root, page_ids, a);
    let headings = first_headings(v, root, page_ids, a);
    let links = content::page_links(v, root, page_ids);
    let (x, y) = (ids_on(first, a, page_id), ids_on(second, b, page_id));
    let nodes = nodes_on(v, root, Round::Headings, page_ids, page_id);
    lemma_writes_on(v, root, Round::Headings, page_ids, links, none, page_id);
    lemma_writes_on(v, root, Round::Content, page_ids, links, headings, page_id);
    assert(page_writes(v, root, Round::Headings, links, none, nodes) =~= page_writes(
        v,
        root,
        Round::Headings,
        links,
        headings,
        nodes,
    ));
    law_all_headings_are_noted(v, root, page_ids, a);
    if exists|g: int| job_for(first, page_id, g) {
        let g = choose|g: int| job_for(first, page_id, g);
        assert(ids_match(a[g], first[g].writes));
        assert(headings_known(
            v,
            root,
            headings,
            nodes_on(v, root, Round::Headings, page_ids, first[g].page_id),
            a[g],
        ));
        if exists|h: int| job_for(second, page_id, h) {
            let h = choose|h: int| job_for(second, page_id, h);
            assert(ids_disjoint(a[g], b[h]));
        }
    }
    if exists|h: int| job_for(second, page_id, h) {
        let h = choose|h: int| job_for(second, page_id, h);
        assert(ids_match(b[h], second[h].writes));
    }
}

/// A snapshot whose rounds both went through, and whose pages are read back as
/// they were written, passes its validation: no link of a node is reported as
/// missing.
///
/// `a[g]` and `b[g]` are the IDs that Notion gave the blocks of the `g`th job of
/// the two rounds, and `children[p]` are the blocks of the `p`th page that is
/// read back. Blocks whose text exceeds what Notion takes are left out, as their
/// links may be cut off.
pub proof fn law_published_snapshot_passes(
    v: VaultView,
    root: PathView,
    page_ids: Seq<Seq<char>>,
    a: Seq<Seq<Seq<Seq<char>>>>,
    b: Seq<Seq<Seq<Seq<char>>>>,
    children: Seq<Seq<ChildBlockView>>,
)
    requires
        vault::unique_ids(v.nodes),
        validate::all_resolve(v.nodes),
        own_pages(v, root, page_ids),
        forall|i: int|
            0 <= i < v.nodes.len() ==> (#[trigger] v.nodes[i]).links == org_parser::first_seen(
                org_parser::block_links(v.nodes[i].blocks),
            ),
        forall|i: int, k: int|
            #![trigger v.nodes[i].blocks[k]]
            0 <= i < v.nodes.len() && 0 <= k < v.nodes[i].blocks.len() ==> fits(
                v.nodes[i].blocks[k],
                content::page_links(v, root, page_ids),
            ),
        ids_given(first_jobs(v, root, page_ids), a),
        ids_given(second_jobs(v, root, page_ids, a), b),
        forall|g: int, h: int|
            0 <= g < a.len() && 0 <= h < b.len() ==> #[trigger] ids_disjoint(a[g], b[h]),
        ({
            let links = content::page_links(v, root, page_ids);
            let pages = content::pages_to_read(v.nodes, links, v.nodes.len() as int);
            let first = first_jobs(v, root, page_ids);
            let second = second_jobs(v, root, page_ids, a);
            &&& children.len() == pages.len()
            &&& forall|p: int|
                0 <= p < pages.len() ==> children[p].map_values(|c: ChildBlockView| c.block)
                    == blocks_of(published_page(first, a, second, b, (#[trigger] pages[p]).0))
        }),
    ensures
        ({
            let links = content::page_links(v, root, page_ids);
            let found = children.map_values(|c: Seq<ChildBlockView>| validate::found_on(c));
            content::failed_nodes(v.nodes, links, found, v.nodes.len() as int).len() == 0
        }),
{
    let links = content::page_links(v, root, page_ids);
    let pages = content::pages_to_read(v.nodes, links, v.nodes.len() as int);
    let first = first_jobs(v, root, page_ids);
    let second = second_jobs(v, root, page_ids, a);
    let headings = first_headings(v, root, page_ids, a);
    let x = Seq::new(pages.len(), |p: int| ids_on(first, a, pages[p].0));
    let y = Seq::new(pages.len(), |p: int| ids_on(second, b, pages[p].0));
    assert forall|p: int| 0 <= p < pages.len() implies stored_ids(
        v,
        root,
        page_ids,
        links,
        headings,
        (#[trigger] pages[p]).0,
        x[p],
        y[p],
    ) && children[p].map_values(|c: ChildBlockView| c.block) == blocks_of(
        stored_page(v, root, page_ids, links, headings, pages[p].0, x[p], y[p]),
    ) by {
        law_published_page(v, root, page_ids, a, b, pages[p].0);
    }
    law_stored_snapshot_passes(v, root, page_ids, headings, x, y, children);
}

/// The same of a publication all of whose pages are there, under IDs of their
/// own: given what its two rounds hand out, and the pages that it asks to read
/// back, it finds no link missing.
pub proof fn law_publication_passes(
    p: Publication,
    title: Seq<char>,
    a: Seq<Seq<Seq<Seq<char>>>>,
    b: Seq<Seq<Seq<Seq<char>>>>,
    children: Seq<Seq<ChildBlockView>>,
)
    requires
        ({
            let v = p.vault.deep_view();
            let root = p.vault_dir.deep_view();
            let none = content::no_headings(v.nodes.len());
            let first = publish::jobs_of(p, Round::Headings, none);
            let headings = publish::noted(none, all_done(first, a), first.len() as int);
            let second = publish::jobs_of(p, Round::Content, headings);
            let reads = publish::reads_of(p);
            &&& vault::unique_ids(v.nodes)
            &&& validate::all_resolve(v.nodes)
            &&& forall|i: int|
                0 <= i < v.nodes.len() ==> (#[trigger] v.nodes[i]).links == org_parser::first_seen(
                    org_parser::block_links(v.nodes[i].blocks),
                )
            &&& forall|i: int, k: int|
                #![trigger v.nodes[i].blocks[k]]
                0 <= i < v.nodes.len() && 0 <= k < v.nodes[i].blocks.len() ==> fits(
                    v.nodes[i].blocks[k],
                    publish::links_of(p),
                )
            &&& pages::plan_of(p.creation.plan, v, root, title)
            &&& p.creation.created@.len() == p.creation.plan.pages@.len()
            &&& p.creation.created@.map_values(|c: CreatedPage| c.id@).no_duplicates()
            &&& ids_given(first, a)
            &&& ids_given(second, b)
            &&& forall|g: int, h: int|
                0 <= g < a.len() && 0 <= h < b.len() ==> #[trigger] ids_disjoint(a[g], b[h])
            &&& children.len() == reads.len()
            &&& forall|k: int|
                0 <= k < reads.len() ==> children[k].map_values(|c: ChildBlockView| c.block)
                    == blocks_of(published_page(first, a, second, b, (#[trigger] reads[k]).0))
        }),
    ensures
        ({
            let v = p.vault.deep_view();
            let found = children.map_values(|c: Seq<ChildBlockView>| validate::found_on(c));
            content::failed_nodes(
                v.nodes,
                publish::links_of(p),
                found,
                v.nodes.len() as int,
            ).len() == 0
        }),
{
    let v = p.vault.deep_view();
    let root = p.vault_dir.deep_view();
    let page_ids = publish::page_ids_of(p.creation);
    let created = p.creation.created@.map_values(|c: CreatedPage| c.id@);
    assert(p.creation.plan.pages.deep_view().len() == p.creation.plan.pages@.len());
    law_own_pages(v, root, title, created);
    assert(page_ids =~= Seq::new(
        v.nodes.len(),
        |i: int| created[pages::page_of_node(v, root, i)],
    )) by {
        assert forall|i: int| 0 <= i < v.nodes.len() implies #[trigger] page_ids[i]
            == created[pages::page_of_node(v, root, i)] by {
            pages::lemma_node_has_page(v, root, title, i);
            assert(p.creation.plan.node_pages@[i] == pages::page_of_node(v, root, i));
        }
    }
    law_published_snapshot_passes(v, root, page_ids, a, b, children);
}

} // verus!
