//! Validation of the links between nodes: before anything is written, that
//! every link resolves within the vault; afterwards, that what was read back
//! from Notion holds every link it should.

use crate::blocks;
use crate::blocks::{BlockView, Mention, MentionView, RichText, RichTextView};
use crate::converter;
use crate::converter::{LinkMap, LinkMapView, LinkTarget, LinkTargetView};
use crate::id_map::IdMap;
use crate::org_parser::{Node, NodeView};
use crate::path;
use crate::ports::{ChildBlock, ChildBlockView};
use crate::text;
use crate::vault;
use crate::vault::Vault;
use vstd::hash_set::StringHashSet;
use vstd::prelude::*;

verus! {

// ---------------------------------------------------------------------
// Before writing
// ---------------------------------------------------------------------

/// A link whose target is not in the vault.
#[derive(Debug, Clone, PartialEq, Eq)]
pub struct BrokenLink {
    /// ID of the node that holds the link.
    pub source_node_id: String,
    /// File of that node.
    pub source_file: String,
    /// The ID that no node has.
    pub target_id: String,
}

/// The model of a broken link.
pub struct BrokenLinkView {
    pub source_node_id: Seq<char>,
    pub source_file: Seq<char>,
    pub target_id: Seq<char>,
}

impl DeepView for BrokenLink {
    type V = BrokenLinkView;

    open spec fn deep_view(&self) -> BrokenLinkView {
        BrokenLinkView {
            source_node_id: self.source_node_id@,
            source_file: self.source_file@,
            target_id: self.target_id@,
        }
    }
}

/// A broken link as text.
pub open spec fn broken_link_text(b: BrokenLinkView) -> Seq<char> {
    b.source_file + " (node "@ + b.source_node_id + ") links to unknown id [[id:"@ + b.target_id
        + "]]"@
}

impl BrokenLink {
    /// The broken link as text.
    pub fn message(&self) -> (r: String)
        ensures
            r@ == broken_link_text(self.deep_view()),
    {
        let mut s: String = text::concat2(self.source_file.as_str(), " (node ");
        s.append(self.source_node_id.as_str());
        s.append(") links to unknown id [[id:");
        s.append(self.target_id.as_str());
        s.append("]]");
        s
    }
}

/// Whether some node has the ID.
pub open spec fn known(nodes: Seq<NodeView>, id: Seq<char>) -> bool {
    exists|i: int| 0 <= i < nodes.len() && #[trigger] nodes[i].id == id
}

/// The broken links among the first links of a node.
pub open spec fn broken_of(nodes: Seq<NodeView>, n: NodeView, links: Seq<Seq<char>>) -> Seq<
    BrokenLinkView,
>
    decreases links.len(),
{
    if links.len() == 0 {
        Seq::<BrokenLinkView>::empty()
    } else {
        let head = broken_of(nodes, n, links.drop_last());
        if known(nodes, links.last()) {
            head
        } else {
            head.push(
                BrokenLinkView {
                    source_node_id: n.id,
                    source_file: path::display(n.file_path),
                    target_id: links.last(),
                },
            )
        }
    }
}

/// The broken links of the nodes in `some`, in order.
pub open spec fn all_broken(nodes: Seq<NodeView>, some: Seq<NodeView>) -> Seq<BrokenLinkView>
    decreases some.len(),
{
    if some.len() == 0 {
        Seq::<BrokenLinkView>::empty()
    } else {
        all_broken(nodes, some.drop_last()) + broken_of(nodes, some.last(), some.last().links)
    }
}

/// The ID index holds exactly the IDs of the nodes.
pub proof fn lemma_id_index_domain(nodes: Seq<NodeView>, id: Seq<char>)
    ensures
        vault::id_index_spec(nodes).dom().contains(id) <==> known(nodes, id),
    decreases nodes.len(),
{
    if nodes.len() > 0 {
        let h = nodes.drop_last();
        lemma_id_index_domain(h, id);
        if known(nodes, id) {
            let i = choose|i: int| 0 <= i < nodes.len() && #[trigger] nodes[i].id == id;
            if i < h.len() {
                assert(h[i].id == id);
            }
        }
        if known(h, id) {
            let i = choose|i: int| 0 <= i < h.len() && #[trigger] h[i].id == id;
            assert(nodes[i].id == id);
        }
        if nodes.last().id == id {
            assert(nodes[nodes.len() - 1].id == id);
        }
    }
}

fn add_broken(
    index: &IdMap<usize>,
    node: &Node,
    broken: &mut Vec<BrokenLink>,
    Ghost(nodes): Ghost<Seq<NodeView>>,
)
    requires
        index.map() == vault::id_index_spec(nodes),
    ensures
        final(broken).deep_view() == old(broken).deep_view() + broken_of(
            nodes,
            node.deep_view(),
            node.deep_view().links,
        ),
{
    let ghost n = node.deep_view();
    let ghost start = broken.deep_view();
    let ghost links = node.links.deep_view();
    let mut i: usize = 0;
    assert(start + broken_of(nodes, n, links.take(0)) =~= start);
    while i < node.links.len()
        invariant
            index.map() == vault::id_index_spec(nodes),
            n == node.deep_view(),
            links == node.links.deep_view(),
            i <= node.links@.len(),
            broken.deep_view() == start + broken_of(nodes, n, links.take(i as int)),
        decreases node.links.len() - i,
    {
        let ghost before = broken.deep_view();
        proof {
            assert(links.take(i + 1).drop_last() =~= links.take(i as int));
            assert(links.take(i + 1).last() == node.links[i as int]@);
            lemma_id_index_domain(nodes, node.links[i as int]@);
        }
        if !index.contains(node.links[i].as_str()) {
            let b: BrokenLink = BrokenLink {
                source_node_id: node.id.clone(),
                source_file: node.file_path.to_text(),
                target_id: node.links[i].clone(),
            };
            broken.push(b);
            assert(broken.deep_view() =~= before.push(b.deep_view()));
            assert(broken.deep_view() =~= start + broken_of(nodes, n, links.take(i + 1)));
        }
        i = i + 1;
    }
    assert(links.take(i as int) =~= links);
}

/// Checks that every link of every node resolves to a node of the vault, and
/// gives all the broken links where some do not.
pub fn pre_validate(v: &Vault) -> (r: Result<(), Vec<BrokenLink>>)
    ensures
        match r {
            Ok(_) => all_broken(v.nodes.deep_view(), v.nodes.deep_view()).len() == 0,
            Err(broken) => broken.deep_view().len() > 0 && broken.deep_view() == all_broken(
                v.nodes.deep_view(),
                v.nodes.deep_view(),
            ),
        },
{
    let ghost nodes = v.nodes.deep_view();
    let index: IdMap<usize> = v.id_index();
    let mut broken: Vec<BrokenLink> = Vec::new();
    let mut i: usize = 0;
    assert(broken.deep_view() =~= all_broken(nodes, nodes.take(0)));
    while i < v.nodes.len()
        invariant
            nodes == v.nodes.deep_view(),
            index.map() == vault::id_index_spec(nodes),
            i <= v.nodes@.len(),
            broken.deep_view() == all_broken(nodes, nodes.take(i as int)),
        decreases v.nodes.len() - i,
    {
        assert(nodes.take(i + 1).drop_last() =~= nodes.take(i as int));
        assert(nodes.take(i + 1).last() == v.nodes[i as int].deep_view());
        add_broken(&index, &v.nodes[i], &mut broken, Ghost(nodes));
        i = i + 1;
    }
    assert(nodes.take(i as int) =~= nodes);
    if broken.len() == 0 {
        Ok(())
    } else {
        Err(broken)
    }
}

// ---------------------------------------------------------------------
// After writing
// ---------------------------------------------------------------------

/// What is missing on the page of one node.
#[derive(Debug, Clone, PartialEq, Eq)]
pub struct PostValidationResult {
    /// The node's ID.
    pub node_id: String,
    /// The IDs whose expected link was not found.
    pub missing: Vec<String>,
}

/// The model of a post-validation result.
pub struct ResultView {
    pub node_id: Seq<char>,
    pub missing: Seq<Seq<char>>,
}

impl DeepView for PostValidationResult {
    type V = ResultView;

    open spec fn deep_view(&self) -> ResultView {
        ResultView { node_id: self.node_id@, missing: self.missing.deep_view() }
    }
}

impl PostValidationResult {
    /// Whether every expected link was found.
    pub fn passed(&self) -> (r: bool)
        ensures
            r == (self.deep_view().missing.len() == 0),
    {
        self.missing.len() == 0
    }
}

/// The links found on a page.
pub struct FoundLinks {
    /// The IDs of the pages that are mentioned.
    pub page_ids: StringHashSet,
    /// The URLs that text links to.
    pub link_urls: StringHashSet,
}

/// The model of the links found.
#[verifier::ext_equal]
pub struct FoundView {
    pub page_ids: Set<Seq<char>>,
    pub link_urls: Set<Seq<char>>,
}

impl DeepView for FoundLinks {
    type V = FoundView;

    open spec fn deep_view(&self) -> FoundView {
        FoundView { page_ids: self.page_ids@, link_urls: self.link_urls@ }
    }
}

/// Whether some run of some block's inline text mentions the page.
pub open spec fn mentions_page(children: Seq<ChildBlockView>, id: Seq<char>) -> bool {
    exists|i: int, j: int| #[trigger] mention_at(children, i, j, id)
}

/// Whether the `j`th run of the `i`th block mentions the page.
pub open spec fn mention_at(children: Seq<ChildBlockView>, i: int, j: int, id: Seq<char>) -> bool {
    &&& 0 <= i < children.len()
    &&& blocks::inline_text(children[i].block) matches Some(runs)
    &&& 0 <= j < runs.len()
    &&& runs[j] matches RichTextView::Mention { mention, .. }
    &&& mention == MentionView::Page { id }
}

/// Whether some run of some block's inline text links to the URL.
pub open spec fn links_to(children: Seq<ChildBlockView>, url: Seq<char>) -> bool {
    exists|i: int, j: int| #[trigger] link_at(children, i, j, url)
}

/// Whether the `j`th run of the `i`th block links to the URL.
pub open spec fn link_at(children: Seq<ChildBlockView>, i: int, j: int, url: Seq<char>) -> bool {
    &&& 0 <= i < children.len()
    &&& blocks::inline_text(children[i].block) matches Some(runs)
    &&& 0 <= j < runs.len()
    &&& runs[j] matches RichTextView::Text { link, .. }
    &&& link == Some(url)
}

/// What one run adds to the links found.
pub open spec fn with_run(f: FoundView, run: RichTextView) -> FoundView {
    match run {
        RichTextView::Mention { mention: MentionView::Page { id }, .. } => FoundView {
            page_ids: f.page_ids.insert(id),
            ..f
        },
        RichTextView::Text { link: Some(url), .. } => FoundView {
            link_urls: f.link_urls.insert(url),
            ..f
        },
        _ => f,
    }
}

/// What runs add to the links found.
pub open spec fn with_runs(f: FoundView, runs: Seq<RichTextView>) -> FoundView
    decreases runs.len(),
{
    if runs.len() == 0 {
        f
    } else {
        with_run(with_runs(f, runs.drop_last()), runs.last())
    }
}

/// What one block adds to the links found.
pub open spec fn with_block(f: FoundView, b: BlockView) -> FoundView {
    match blocks::inline_text(b) {
        Some(runs) => with_runs(f, runs),
        None => f,
    }
}

/// The links found on blocks.
pub open spec fn found_on(children: Seq<ChildBlockView>) -> FoundView
    decreases children.len(),
{
    if children.len() == 0 {
        FoundView { page_ids: Set::<Seq<char>>::empty(), link_urls: Set::<Seq<char>>::empty() }
    } else {
        with_block(found_on(children.drop_last()), children.last().block)
    }
}

fn add_run(found: &mut FoundLinks, run: &RichText)
    ensures
        final(found).deep_view() == with_run(old(found).deep_view(), run.deep_view()),
{
    match run {
        RichText::Mention { mention: Mention::Page { id }, .. } => {
            found.page_ids.insert(id.clone());
        },
        RichText::Text { link: Some(url), .. } => {
            found.link_urls.insert(url.clone());
        },
        _ => {},
    }
}

/// Collects the links found on the blocks of a page.
pub fn collect_links(children: &[ChildBlock]) -> (r: FoundLinks)
    ensures
        r.deep_view() == found_on(children.deep_view()),
{
    let ghost all = children.deep_view();
    let mut found: FoundLinks = FoundLinks {
        page_ids: StringHashSet::new(),
        link_urls: StringHashSet::new(),
    };
    let mut i: usize = 0;
    while i < children.len()
        invariant
            all == children.deep_view(),
            i <= children@.len(),
            found.deep_view() == found_on(all.take(i as int)),
        decreases children.len() - i,
    {
        assert(all.take(i + 1).drop_last() =~= all.take(i as int));
        assert(all.take(i + 1).last() == children[i as int].deep_view());
        let ghost start = found.deep_view();
        match converter::rich_text_of(&children[i].block) {
            None => {},
            Some(runs) => {
                let ghost rs = runs.deep_view();
                let mut j: usize = 0;
                while j < runs.len()
                    invariant
                        rs == runs.deep_view(),
                        j <= runs@.len(),
                        found.deep_view() == with_runs(start, rs.take(j as int)),
                    decreases runs.len() - j,
                {
                    assert(rs.take(j + 1).drop_last() =~= rs.take(j as int));
                    assert(rs.take(j + 1).last() == runs[j as int].deep_view());
                    add_run(&mut found, &runs[j]);
                    j = j + 1;
                }
                assert(rs.take(j as int) =~= rs);
            },
        }
        i = i + 1;
    }
    assert(all.take(i as int) =~= all);
    found
}

/// Whether a link to `id` was found as the map has it.
pub open spec fn link_present(id: Seq<char>, links: LinkMapView, found: FoundView) -> bool {
    links.dom().contains(id) && match links[id] {
        LinkTargetView::Page(page_id) => found.page_ids.contains(page_id),
        LinkTargetView::Block { page_id: _, url, text: _ } => found.link_urls.contains(url),
    }
}

/// The targets whose link was not found, in order.
pub open spec fn missing_links(
    targets: Seq<Seq<char>>,
    links: LinkMapView,
    found: FoundView,
) -> Seq<Seq<char>>
    decreases targets.len(),
{
    if targets.len() == 0 {
        Seq::<Seq<char>>::empty()
    } else {
        let head = missing_links(targets.drop_last(), links, found);
        if link_present(targets.last(), links, found) {
            head
        } else {
            head.push(targets.last())
        }
    }
}

/// What is missing of a node's links.
pub open spec fn checked(n: NodeView, links: LinkMapView, found: FoundView) -> ResultView {
    ResultView { node_id: n.id, missing: missing_links(n.links, links, found) }
}

/// Checks the links of one node against those found on its page.
pub fn check_node(node: &Node, links: &LinkMap, found: &FoundLinks) -> (r: PostValidationResult)
    ensures
        r.deep_view() == checked(node.deep_view(), links.map(), found.deep_view()),
{
    let ghost targets = node.links.deep_view();
    let mut missing: Vec<String> = Vec::new();
    let mut i: usize = 0;
    assert(missing.deep_view() =~= missing_links(targets.take(0), links.map(), found.deep_view()));
    while i < node.links.len()
        invariant
            targets == node.links.deep_view(),
            i <= node.links@.len(),
            missing.deep_view() == missing_links(
                targets.take(i as int),
                links.map(),
                found.deep_view(),
            ),
        decreases node.links.len() - i,
    {
        assert(targets.take(i + 1).drop_last() =~= targets.take(i as int));
        assert(targets.take(i + 1).last() == node.links[i as int]@);
        let ghost before = missing.deep_view();
        let present: bool = match links.get(node.links[i].as_str()) {
            Some(LinkTarget::Page(page_id)) => found.page_ids.contains(page_id.as_str()),
            Some(LinkTarget::Block { page_id: _, url, text: _ }) => found.link_urls.contains(
                url.as_str(),
            ),
            None => false,
        };
        if !present {
            missing.push(node.links[i].clone());
            assert(missing.deep_view() =~= before.push(node.links[i as int]@));
        }
        i = i + 1;
    }
    assert(targets.take(i as int) =~= targets);
    PostValidationResult { node_id: node.id.clone(), missing }
}

/// The page that a link target is on.
pub open spec fn target_page(t: LinkTargetView) -> Seq<char> {
    match t {
        LinkTargetView::Page(page_id) => page_id,
        LinkTargetView::Block { page_id, .. } => page_id,
    }
}

/// The page that a link target is on.
pub fn page_of_target(t: &LinkTarget) -> (r: &str)
    ensures
        r@ == target_page(t.deep_view()),
{
    match t {
        LinkTarget::Page(page_id) => page_id.as_str(),
        LinkTarget::Block { page_id, url: _, text: _ } => page_id.as_str(),
    }
}

/// The page to read back for one node; where the node is on no page, the
/// result that says that every link is missing.
pub fn page_to_check(node: &Node, links: &LinkMap) -> (r: Result<String, PostValidationResult>)
    ensures
        match r {
            Ok(page_id) => links.map().dom().contains(node.id@) && page_id@ == target_page(
                links.map()[node.id@],
            ),
            Err(result) => !links.map().dom().contains(node.id@) && result.deep_view() == (
            ResultView { node_id: node.id@, missing: node.links.deep_view() }),
        },
{
    match links.get(node.id.as_str()) {
        Some(t) => Ok(page_of_target(t).to_owned()),
        None => Err(
            PostValidationResult {
                node_id: node.id.clone(),
                missing: text::copy_strings(&node.links),
            },
        ),
    }
}

/// The result for one node, from what was read back of its page.
pub fn post_validate(node: &Node, links: &LinkMap, children: &[ChildBlock]) -> (r:
    PostValidationResult)
    ensures
        r.deep_view() == (if links.map().dom().contains(node.id@) {
            checked(node.deep_view(), links.map(), found_on(children.deep_view()))
        } else {
            ResultView { node_id: node.id@, missing: node.links.deep_view() }
        }),
{
    match page_to_check(node, links) {
        Err(result) => result,
        Ok(_) => {
            let found: FoundLinks = collect_links(children);
            check_node(node, links, &found)
        },
    }
}

// ---------------------------------------------------------------------
// Laws
// ---------------------------------------------------------------------

/// Whether every link of every node resolves.
pub open spec fn all_resolve(nodes: Seq<NodeView>) -> bool {
    forall|i: int, j: int|
        #![trigger nodes[i].links[j]]
        0 <= i < nodes.len() && 0 <= j < nodes[i].links.len() ==> known(nodes, nodes[i].links[j])
}

/// The broken link that the `j`th link of a node would be.
pub open spec fn broken_at(n: NodeView, j: int) -> BrokenLinkView {
    BrokenLinkView {
        source_node_id: n.id,
        source_file: path::display(n.file_path),
        target_id: n.links[j],
    }
}

proof fn lemma_broken_of(nodes: Seq<NodeView>, n: NodeView, k: int)
    requires
        0 <= k <= n.links.len(),
    ensures
        forall|j: int|
            0 <= j < k && !known(nodes, #[trigger] n.links[j]) ==> broken_of(
                nodes,
                n,
                n.links.take(k),
            ).contains(broken_at(n, j)),
        forall|m: int|
            0 <= m < broken_of(nodes, n, n.links.take(k)).len() ==> exists|j: int|
                0 <= j < k && !known(nodes, n.links[j]) && #[trigger] broken_of(
                    nodes,
                    n,
                    n.links.take(k),
                )[m] == #[trigger] broken_at(n, j),
    decreases k,
{
    if k > 0 {
        lemma_broken_of(nodes, n, k - 1);
        let h = broken_of(nodes, n, n.links.take(k - 1));
        let r = broken_of(nodes, n, n.links.take(k));
        assert(n.links.take(k).drop_last() =~= n.links.take(k - 1));
        assert(n.links.take(k).last() == n.links[k - 1]);
        assert forall|j: int| 0 <= j < k && !known(nodes, #[trigger] n.links[j]) implies r.contains(
            broken_at(n, j),
        ) by {
            if j < k - 1 {
                assert(h.contains(broken_at(n, j)));
                let m = choose|m: int| 0 <= m < h.len() && h[m] == broken_at(n, j);
                assert(r[m] == h[m]);
            } else {
                assert(r[r.len() - 1] == broken_at(n, j));
            }
        }
        assert forall|m: int| 0 <= m < r.len() implies exists|j: int|
            0 <= j < k && !known(nodes, n.links[j]) && #[trigger] r[m] == #[trigger] broken_at(
                n,
                j,
            ) by {
            if m < h.len() {
                assert(r[m] == h[m]);
                let j = choose|j: int|
                    0 <= j < k - 1 && !known(nodes, n.links[j]) && h[m] == #[trigger] broken_at(
                        n,
                        j,
                    );
                assert(r[m] == broken_at(n, j));
            } else {
                assert(r[m] == broken_at(n, k - 1));
            }
        }
    }
}

/// Whether a broken link is that of one of the first `k` nodes, and does not
/// resolve.
pub open spec fn truly_broken(nodes: Seq<NodeView>, k: int, b: BrokenLinkView) -> bool {
    exists|i: int, j: int|
        0 <= i < k && 0 <= j < nodes[i].links.len() && !known(nodes, nodes[i].links[j]) && b
            == #[trigger] broken_at(nodes[i], j)
}

proof fn lemma_all_broken(nodes: Seq<NodeView>, k: int)
    requires
        0 <= k <= nodes.len(),
    ensures
        forall|i: int, j: int|
            0 <= i < k && 0 <= j < nodes[i].links.len() && !known(
                nodes,
                #[trigger] nodes[i].links[j],
            ) ==> all_broken(nodes, nodes.take(k)).contains(broken_at(nodes[i], j)),
        forall|m: int|
            0 <= m < all_broken(nodes, nodes.take(k)).len() ==> truly_broken(
                nodes,
                k,
                #[trigger] all_broken(nodes, nodes.take(k))[m],
            ),
    decreases k,
{
    if k > 0 {
        lemma_all_broken(nodes, k - 1);
        let n = nodes[k - 1];
        lemma_broken_of(nodes, n, n.links.len() as int);
        assert(n.links.take(n.links.len() as int) =~= n.links);
        assert(nodes.take(k).drop_last() =~= nodes.take(k - 1));
        assert(nodes.take(k).last() == n);
        let a = all_broken(nodes, nodes.take(k - 1));
        let b = broken_of(nodes, n, n.links);
        let r = all_broken(nodes, nodes.take(k));
        assert(r == a + b);
        assert forall|i: int, j: int|
            0 <= i < k && 0 <= j < nodes[i].links.len() && !known(
                nodes,
                #[trigger] nodes[i].links[j],
            ) implies r.contains(broken_at(nodes[i], j)) by {
            let x = broken_at(nodes[i], j);
            if i < k - 1 {
                assert(a.contains(x));
                let m = choose|m: int| 0 <= m < a.len() && a[m] == x;
                assert(r[m] == x);
            } else {
                assert(b.contains(x));
                let m = choose|m: int| 0 <= m < b.len() && b[m] == x;
                assert(r[a.len() + m] == x);
            }
        }
        assert forall|m: int| 0 <= m < r.len() implies truly_broken(
            nodes,
            k,
            #[trigger] r[m],
        ) by {
            if m < a.len() {
                assert(truly_broken(nodes, k - 1, a[m]));
                let (i, j) = choose|i: int, j: int|
                    0 <= i < k - 1 && 0 <= j < nodes[i].links.len() && !known(
                        nodes,
                        nodes[i].links[j],
                    ) && a[m] == #[trigger] broken_at(nodes[i], j);
                assert(r[m] == broken_at(nodes[i], j));
            } else {
                assert(r[m] == b[m - a.len()]);
                let j = choose|j: int|
                    0 <= j < n.links.len() && !known(nodes, n.links[j]) && b[m - a.len()]
                        == #[trigger] broken_at(n, j);
                assert(r[m] == broken_at(nodes[k - 1], j));
            }
        }
    }
}

/// Pre-validation passes exactly if every link resolves, and what it reports
/// is exactly the links that do not.
pub proof fn law_pre_validation(nodes: Seq<NodeView>)
    ensures
        all_broken(nodes, nodes).len() == 0 <==> all_resolve(nodes),
        forall|i: int, j: int|
            0 <= i < nodes.len() && 0 <= j < nodes[i].links.len() && !known(
                nodes,
                #[trigger] nodes[i].links[j],
            ) ==> all_broken(nodes, nodes).contains(broken_at(nodes[i], j)),
        forall|m: int|
            0 <= m < all_broken(nodes, nodes).len() ==> truly_broken(
                nodes,
                nodes.len() as int,
                #[trigger] all_broken(nodes, nodes)[m],
            ),
{
    lemma_all_broken(nodes, nodes.len() as int);
    assert(nodes.take(nodes.len() as int) =~= nodes);
    let r = all_broken(nodes, nodes);
    if r.len() > 0 {
        assert(truly_broken(nodes, nodes.len() as int, r[0]));
        let (i, j) = choose|i: int, j: int|
            0 <= i < nodes.len() && 0 <= j < nodes[i].links.len() && !known(
                nodes,
                nodes[i].links[j],
            ) && r[0] == #[trigger] broken_at(nodes[i], j);
        assert(!known(nodes, nodes[i].links[j]));
    }
    if !all_resolve(nodes) {
        let (i, j) = choose|i: int, j: int|
            #![trigger nodes[i].links[j]]
            0 <= i < nodes.len() && 0 <= j < nodes[i].links.len() && !known(
                nodes,
                nodes[i].links[j],
            );
        assert(r.contains(broken_at(nodes[i], j)));
    }
}

proof fn lemma_with_runs(f: FoundView, runs: Seq<RichTextView>)
    ensures
        forall|id: Seq<char>| #[trigger]
            with_runs(f, runs).page_ids.contains(id) <==> f.page_ids.contains(id) || exists|j: int|
                0 <= j < runs.len() && run_mentions(#[trigger] runs[j], id),
        forall|url: Seq<char>| #[trigger]
            with_runs(f, runs).link_urls.contains(url) <==> f.link_urls.contains(url)
                || exists|j: int| 0 <= j < runs.len() && run_links(#[trigger] runs[j], url),
    decreases runs.len(),
{
    if runs.len() > 0 {
        let h = runs.drop_last();
        let last = runs.last();
        let g = with_runs(f, h);
        let r = with_runs(f, runs);
        lemma_with_runs(f, h);
        assert forall|id: Seq<char>| #[trigger] r.page_ids.contains(id) <==> f.page_ids.contains(id)
            || exists|j: int| 0 <= j < runs.len() && run_mentions(#[trigger] runs[j], id) by {
            assert(r.page_ids.contains(id) <==> g.page_ids.contains(id) || run_mentions(last, id));
            if exists|j: int| 0 <= j < h.len() && run_mentions(#[trigger] h[j], id) {
                let j = choose|j: int| 0 <= j < h.len() && run_mentions(#[trigger] h[j], id);
                assert(runs[j] == h[j]);
            }
            if run_mentions(last, id) {
                assert(runs[runs.len() - 1] == last);
            }
            if exists|j: int| 0 <= j < runs.len() && run_mentions(#[trigger] runs[j], id) {
                let j = choose|j: int| 0 <= j < runs.len() && run_mentions(#[trigger] runs[j], id);
                if j < h.len() {
                    assert(h[j] == runs[j]);
                }
            }
        }
        assert forall|url: Seq<char>| #[trigger] r.link_urls.contains(url)
            <==> f.link_urls.contains(url) || exists|j: int|
            0 <= j < runs.len() && run_links(#[trigger] runs[j], url) by {
            assert(r.link_urls.contains(url) <==> g.link_urls.contains(url) || run_links(
                last,
                url,
            ));
            if exists|j: int| 0 <= j < h.len() && run_links(#[trigger] h[j], url) {
                let j = choose|j: int| 0 <= j < h.len() && run_links(#[trigger] h[j], url);
                assert(runs[j] == h[j]);
            }
            if run_links(last, url) {
                assert(runs[runs.len() - 1] == last);
            }
            if exists|j: int| 0 <= j < runs.len() && run_links(#[trigger] runs[j], url) {
                let j = choose|j: int| 0 <= j < runs.len() && run_links(#[trigger] runs[j], url);
                if j < h.len() {
                    assert(h[j] == runs[j]);
                }
            }
        }
    }
}

/// Whether a run mentions the page.
pub open spec fn run_mentions(run: RichTextView, id: Seq<char>) -> bool {
    run matches RichTextView::Mention { mention, .. } && mention == (MentionView::Page { id })
}

/// Whether a run links to the URL.
pub open spec fn run_links(run: RichTextView, url: Seq<char>) -> bool {
    run matches RichTextView::Text { link, .. } && link == Some(url)
}

/// The links found on blocks are exactly the pages that they mention and the
/// URLs that they link to.
pub proof fn law_found_links(children: Seq<ChildBlockView>)
    ensures
        forall|id: Seq<char>| #[trigger]
            found_on(children).page_ids.contains(id) <==> mentions_page(children, id),
        forall|url: Seq<char>| #[trigger]
            found_on(children).link_urls.contains(url) <==> links_to(children, url),
    decreases children.len(),
{
    if children.len() == 0 {
        assert forall|id: Seq<char>| !mentions_page(children, id) by {}
        assert forall|url: Seq<char>| !links_to(children, url) by {}
    } else {
        let h = children.drop_last();
        let m = children.len() - 1;
        let f = found_on(h);
        law_found_links(h);
        let runs = match blocks::inline_text(children.last().block) {
            Some(runs) => runs,
            None => Seq::<RichTextView>::empty(),
        };
        lemma_with_runs(f, runs);
        assert(children[m] == children.last());
        assert(found_on(children) == with_runs(f, runs));
        assert forall|id: Seq<char>| #[trigger] found_on(children).page_ids.contains(id)
            <==> mentions_page(children, id) by {
            assert(f.page_ids.contains(id) <==> mentions_page(h, id));
            if mentions_page(h, id) {
                let (i, j) = choose|i: int, j: int| #[trigger] mention_at(h, i, j, id);
                assert(mention_at(children, i, j, id));
            }
            if exists|j: int| 0 <= j < runs.len() && run_mentions(#[trigger] runs[j], id) {
                let j = choose|j: int| 0 <= j < runs.len() && run_mentions(#[trigger] runs[j], id);
                assert(mention_at(children, m, j, id));
            }
            if mentions_page(children, id) {
                let (i, j) = choose|i: int, j: int| #[trigger] mention_at(children, i, j, id);
                if i < m {
                    assert(mention_at(h, i, j, id));
                } else {
                    assert(run_mentions(runs[j], id));
                }
            }
        }
        assert forall|url: Seq<char>| #[trigger] found_on(children).link_urls.contains(url)
            <==> links_to(children, url) by {
            assert(f.link_urls.contains(url) <==> links_to(h, url));
            if links_to(h, url) {
                let (i, j) = choose|i: int, j: int| #[trigger] link_at(h, i, j, url);
                assert(link_at(children, i, j, url));
            }
            if exists|j: int| 0 <= j < runs.len() && run_links(#[trigger] runs[j], url) {
                let j = choose|j: int| 0 <= j < runs.len() && run_links(#[trigger] runs[j], url);
                assert(link_at(children, m, j, url));
            }
            if links_to(children, url) {
                let (i, j) = choose|i: int, j: int| #[trigger] link_at(children, i, j, url);
                if i < m {
                    assert(link_at(h, i, j, url));
                } else {
                    assert(run_links(runs[j], url));
                }
            }
        }
    }
}

/// What is missing of some links is exactly those that are not present.
pub proof fn law_missing_links(targets: Seq<Seq<char>>, links: LinkMapView, found: FoundView)
    ensures
        missing_links(targets, links, found).len() == 0 <==> forall|i: int|
            0 <= i < targets.len() ==> link_present(#[trigger] targets[i], links, found),
        forall|id: Seq<char>| #[trigger]
            missing_links(targets, links, found).contains(id) <==> targets.contains(id)
                && !link_present(id, links, found),
    decreases targets.len(),
{
    let r = missing_links(targets, links, found);
    if targets.len() > 0 {
        let h = targets.drop_last();
        let x = targets.last();
        let f = missing_links(h, links, found);
        law_missing_links(h, links, found);
        assert(targets[targets.len() - 1] == x);
        assert forall|id: Seq<char>| #[trigger] r.contains(id) <==> targets.contains(id)
            && !link_present(id, links, found) by {
            assert(f.contains(id) <==> h.contains(id) && !link_present(id, links, found));
            if h.contains(id) {
                let k = choose|k: int| 0 <= k < h.len() && h[k] == id;
                assert(targets[k] == id);
            }
            if targets.contains(id) && id != x {
                let k = choose|k: int| 0 <= k < targets.len() && targets[k] == id;
                assert(h[k] == id);
            }
            if f.contains(id) {
                let k = choose|k: int| 0 <= k < f.len() && f[k] == id;
                assert(r[k] == id);
            }
            if id == x && !link_present(x, links, found) {
                assert(r[r.len() - 1] == id);
            }
            if r.contains(id) && !f.contains(id) {
                let k = choose|k: int| 0 <= k < r.len() && r[k] == id;
                if k < f.len() {
                    assert(f[k] == id);
                }
            }
        }
        if r.len() == 0 {
            assert forall|i: int| 0 <= i < targets.len() implies link_present(
                #[trigger] targets[i],
                links,
                found,
            ) by {
                assert(targets.contains(targets[i]));
                assert(!r.contains(targets[i]));
            }
        } else {
            assert(r.contains(r[0]));
            let k = choose|k: int| 0 <= k < targets.len() && targets[k] == r[0];
            assert(!link_present(targets[k], links, found));
        }
    }
}

} // verus!
