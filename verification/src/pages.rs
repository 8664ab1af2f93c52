//! The pages of a snapshot: which are created, under which parent, and in
//! which order.
//!
//! The root page comes first, then a page for each directory and then one for
//! each node that has its own. They are created one after another in that
//! order, since Notion shows the pages under a parent in the order of their
//! creation.

use crate::layout;
use crate::layout::Placement;
use crate::order;
use crate::org_parser::NodeView;
use crate::path;
use crate::path::{PathView, VaultPath};
use crate::ports::{CreatedPage, CreatedPageView, NotionError};
use crate::run::{RunError, RunErrorView};
use crate::text;
use crate::vault::{Vault, VaultView};
use vstd::prelude::*;

verus! {

// ---------------------------------------------------------------------
// The plan
// ---------------------------------------------------------------------

/// A page to create.
pub struct PlannedPage {
    /// The position of the parent among the pages; the root page has none.
    pub parent: usize,
    pub title: String,
    /// What is reported if the page cannot be created.
    pub context: String,
}

/// The model of a page to create.
pub struct PlannedPageView {
    pub parent: int,
    pub title: Seq<char>,
    pub context: Seq<char>,
}

impl DeepView for PlannedPage {
    type V = PlannedPageView;

    open spec fn deep_view(&self) -> PlannedPageView {
        PlannedPageView {
            parent: self.parent as int,
            title: self.title@,
            context: self.context@,
        }
    }
}

/// The first position of a directory in a list.
pub open spec fn index_in(dirs: Seq<PathView>, d: PathView) -> int
    decreases dirs.len(),
{
    if dirs.len() == 0 || dirs.first() == d {
        0
    } else {
        1 + index_in(dirs.drop_first(), d)
    }
}

/// The position of a directory's page: the root page stands for the vault
/// root.
pub open spec fn dir_page(dirs: Seq<PathView>, d: PathView) -> int {
    if d == path::empty_path() {
        0
    } else {
        1 + index_in(dirs, d)
    }
}

/// The directory above a directory.
pub open spec fn dir_above(d: PathView) -> PathView {
    match path::parent_of(d) {
        Some(p) => p,
        None => path::empty_path(),
    }
}

/// The root page.
pub open spec fn root_page(title: Seq<char>) -> PlannedPageView {
    PlannedPageView { parent: 0, title, context: "failed to create the snapshot root page"@ }
}

/// The page of a directory.
pub open spec fn planned_dir(v: VaultView, dirs: Seq<PathView>, d: PathView) -> PlannedPageView {
    PlannedPageView {
        parent: dir_page(dirs, dir_above(d)),
        title: layout::dir_title(v, d),
        context: "failed to create the page for directory \""@ + path::display(d) + "\""@,
    }
}

/// The page of a node.
pub open spec fn planned_node(dirs: Seq<PathView>, n: NodeView, root: PathView) -> PlannedPageView {
    PlannedPageView {
        parent: dir_page(dirs, layout::dir_of(n, root)),
        title: n.title,
        context: "failed to create the page for node "@ + text::debug_quoted(n.title),
    }
}

/// Whether a node has a page of its own.
pub open spec fn is_paged(v: VaultView, root: PathView, i: int) -> bool {
    layout::placed(v, root, v.nodes[i]) == Placement::Paged
}

/// How many of the first `k` nodes have a page of their own.
pub open spec fn paged_count(v: VaultView, root: PathView, k: int) -> int
    decreases k,
{
    if k <= 0 {
        0
    } else if is_paged(v, root, k - 1) {
        paged_count(v, root, k - 1) + 1
    } else {
        paged_count(v, root, k - 1)
    }
}

/// The pages of those of the first `k` nodes that have their own.
pub open spec fn node_pages(v: VaultView, root: PathView, k: int) -> Seq<PlannedPageView>
    decreases k,
{
    if k <= 0 {
        Seq::<PlannedPageView>::empty()
    } else if is_paged(v, root, k - 1) {
        node_pages(v, root, k - 1).push(
            planned_node(layout::directories(v, root), v.nodes[k - 1], root),
        )
    } else {
        node_pages(v, root, k - 1)
    }
}

/// The pages of the directories.
pub open spec fn dir_pages(v: VaultView, root: PathView) -> Seq<PlannedPageView> {
    let dirs = layout::directories(v, root);
    dirs.map_values(|d: PathView| planned_dir(v, dirs, d))
}

/// All the pages of a snapshot, in the order of their creation.
pub open spec fn planned_pages(v: VaultView, root: PathView, title: Seq<char>) -> Seq<
    PlannedPageView,
> {
    seq![root_page(title)] + dir_pages(v, root) + node_pages(v, root, v.nodes.len() as int)
}

/// The position of the page that the `i`th node's content goes on.
pub open spec fn page_of_node(v: VaultView, root: PathView, i: int) -> int {
    let dirs = layout::directories(v, root);
    if is_paged(v, root, i) {
        1 + dirs.len() + paged_count(v, root, i)
    } else {
        dir_page(dirs, layout::dir_of(v.nodes[i], root))
    }
}

// ---------------------------------------------------------------------
// Parents come first
// ---------------------------------------------------------------------

proof fn lemma_index_in(dirs: Seq<PathView>, d: PathView)
    requires
        dirs.contains(d),
    ensures
        0 <= index_in(dirs, d) < dirs.len(),
        dirs[index_in(dirs, d)] == d,
    decreases dirs.len(),
{
    if dirs.first() != d {
        let i = choose|i: int| 0 <= i < dirs.len() && dirs[i] == d;
        assert(dirs.drop_first()[i - 1] == d);
        lemma_index_in(dirs.drop_first(), d);
    }
}

proof fn lemma_chain_member(p: PathView, i: int)
    requires
        0 <= i < path::chain(p).len(),
    ensures
        dir_above(path::chain(p)[i]) == path::empty_path() || path::chain(p).contains(
            dir_above(path::chain(p)[i]),
        ),
{
    let c = path::chain(p);
    let skip: int = if p.absolute { 0 } else { 1 };
    let d = c[i];
    assert(d.parts =~= p.parts.take(i + skip));
    if i + skip > 0 {
        assert(d.parts.drop_last() =~= p.parts.take(i + skip - 1));
        if i > 0 {
            assert(c[i - 1] == dir_above(d));
        } else {
            assert(dir_above(d) =~= path::empty_path());
        }
    }
}

proof fn lemma_chain_last(p: PathView)
    ensures
        p == path::empty_path() || path::chain(p).contains(p),
{
    let c = path::chain(p);
    if p.absolute || p.parts.len() > 0 {
        assert(p.parts.take(p.parts.len() as int) =~= p.parts);
        assert(c[c.len() - 1] == p);
    } else {
        assert(p =~= path::empty_path());
    }
}

proof fn lemma_chains(v: VaultView, root: PathView, k: int)
    requires
        0 <= k <= v.nodes.len(),
    ensures
        forall|d: PathView| #[trigger]
            layout::chains(v, root, k).contains(d) ==> dir_above(d) == path::empty_path()
                || layout::chains(v, root, k).contains(dir_above(d)),
        forall|i: int|
            0 <= i < k ==> layout::dir_of(#[trigger] v.nodes[i], root) == path::empty_path()
                || layout::chains(v, root, k).contains(layout::dir_of(v.nodes[i], root)),
    decreases k,
{
    if k > 0 {
        lemma_chains(v, root, k - 1);
        let head = layout::chains(v, root, k - 1);
        let p = layout::dir_of(v.nodes[k - 1], root);
        let c = path::chain(p);
        let all = layout::chains(v, root, k);
        assert(all == head + c);
        assert forall|d: PathView| #[trigger] all.contains(d) implies dir_above(d)
            == path::empty_path() || all.contains(dir_above(d)) by {
            let m = choose|m: int| 0 <= m < all.len() && all[m] == d;
            if m < head.len() {
                assert(head[m] == d);
                assert(head.contains(d));
                if head.contains(dir_above(d)) {
                    lemma_in_first(head, c, dir_above(d));
                }
            } else {
                lemma_chain_member(p, m - head.len());
                if c.contains(dir_above(d)) {
                    lemma_in_second(head, c, dir_above(d));
                }
            }
        }
        assert forall|i: int| 0 <= i < k implies layout::dir_of(#[trigger] v.nodes[i], root)
            == path::empty_path() || all.contains(layout::dir_of(v.nodes[i], root)) by {
            let q = layout::dir_of(v.nodes[i], root);
            if i < k - 1 {
                if head.contains(q) {
                    lemma_in_first(head, c, q);
                }
            } else {
                lemma_chain_last(p);
                if c.contains(p) {
                    lemma_in_second(head, c, p);
                }
            }
        }
    }
}

proof fn lemma_in_first(a: Seq<PathView>, b: Seq<PathView>, p: PathView)
    requires
        a.contains(p),
    ensures
        (a + b).contains(p),
{
    let i = choose|i: int| 0 <= i < a.len() && a[i] == p;
    assert((a + b)[i] == p);
}

proof fn lemma_in_second(a: Seq<PathView>, b: Seq<PathView>, p: PathView)
    requires
        b.contains(p),
    ensures
        (a + b).contains(p),
{
    let i = choose|i: int| 0 <= i < b.len() && b[i] == p;
    assert((a + b)[a.len() + i] == p);
}

/// The page of the directory above comes before the directory's own, and the
/// page of every node's directory exists.
pub proof fn lemma_dir_pages(v: VaultView, root: PathView)
    ensures
        forall|k: int|
            0 <= k < layout::directories(v, root).len() ==> 0 <= dir_page(
                layout::directories(v, root),
                dir_above(#[trigger] layout::directories(v, root)[k]),
            ) < 1 + k,
        forall|i: int|
            0 <= i < v.nodes.len() ==> 0 <= dir_page(
                layout::directories(v, root),
                layout::dir_of(#[trigger] v.nodes[i], root),
            ) < 1 + layout::directories(v, root).len(),
{
    let all = layout::chains(v, root, v.nodes.len() as int);
    let dirs = layout::directories(v, root);
    order::lemma_path_set(all);
    lemma_chains(v, root, v.nodes.len() as int);
    assert forall|k: int| 0 <= k < dirs.len() implies 0 <= dir_page(
        dirs,
        dir_above(#[trigger] dirs[k]),
    ) < 1 + k by {
        let d = dirs[k];
        let above = dir_above(d);
        assert(dirs.contains(d));
        assert(all.contains(d));
        if above != path::empty_path() {
            assert(all.contains(above));
            assert(dirs.contains(above));
            lemma_index_in(dirs, above);
            let j = index_in(dirs, above);
            assert(dirs[j] == above);
            path::lemma_parent_before(d);
            assert(path::path_before(dirs[j], dirs[k]));
            if j >= k {
                if j > k {
                    assert(path::path_before(dirs[k], dirs[j]));
                    path::lemma_path_order(dirs[k], dirs[j], dirs[k]);
                }
                path::lemma_path_order(dirs[k], dirs[k], dirs[k]);
            }
        }
    }
    assert forall|i: int| 0 <= i < v.nodes.len() implies 0 <= dir_page(
        dirs,
        layout::dir_of(#[trigger] v.nodes[i], root),
    ) < 1 + dirs.len() by {
        let q = layout::dir_of(v.nodes[i], root);
        if q != path::empty_path() {
            assert(all.contains(q));
            assert(dirs.contains(q));
            lemma_index_in(dirs, q);
        }
    }
}

proof fn lemma_node_pages(v: VaultView, root: PathView, k: int)
    requires
        0 <= k <= v.nodes.len(),
    ensures
        node_pages(v, root, k).len() == paged_count(v, root, k),
        forall|m: int|
            0 <= m < node_pages(v, root, k).len() ==> 0 <= (#[trigger] node_pages(
                v,
                root,
                k,
            )[m]).parent < 1 + layout::directories(v, root).len(),
    decreases k,
{
    if k > 0 {
        lemma_node_pages(v, root, k - 1);
        lemma_dir_pages(v, root);
        let n = v.nodes[k - 1];
        assert(0 <= dir_page(layout::directories(v, root), layout::dir_of(n, root)) < 1
            + layout::directories(v, root).len());
    }
}

proof fn lemma_paged_count(v: VaultView, root: PathView, i: int, k: int)
    requires
        0 <= i <= k,
    ensures
        0 <= paged_count(v, root, i) <= paged_count(v, root, k),
    decreases k,
{
    if i < k {
        lemma_paged_count(v, root, i, k - 1);
    } else if i > 0 {
        lemma_paged_count(v, root, i - 1, k - 1);
    }
}

/// Every page but the root page is created after its parent.
pub proof fn lemma_parents_first(v: VaultView, root: PathView, title: Seq<char>)
    ensures
        forall|k: int|
            1 <= k < planned_pages(v, root, title).len() ==> 0 <= (#[trigger] planned_pages(
                v,
                root,
                title,
            )[k]).parent < k,
{
    let dirs = layout::directories(v, root);
    let pages = planned_pages(v, root, title);
    lemma_dir_pages(v, root);
    lemma_node_pages(v, root, v.nodes.len() as int);
    assert forall|k: int| 1 <= k < pages.len() implies 0 <= (#[trigger] pages[k]).parent < k by {
        if k < 1 + dirs.len() {
            assert(pages[k] == dir_pages(v, root)[k - 1]);
            assert(pages[k] == planned_dir(v, dirs, dirs[k - 1]));
        } else {
            let m = k - 1 - dirs.len();
            assert(pages[k] == node_pages(v, root, v.nodes.len() as int)[m]);
        }
    }
}

/// Every node's content goes on a page that is created: on its own page, which
/// bears its title, or on its directory's.
pub proof fn lemma_node_has_page(v: VaultView, root: PathView, title: Seq<char>, i: int)
    requires
        0 <= i < v.nodes.len(),
    ensures
        0 <= page_of_node(v, root, i) < planned_pages(v, root, title).len(),
        is_paged(v, root, i) ==> planned_pages(v, root, title)[page_of_node(v, root, i)]
            == planned_node(layout::directories(v, root), v.nodes[i], root),
{
    let n = v.nodes.len() as int;
    let dirs = layout::directories(v, root);
    lemma_dir_pages(v, root);
    lemma_node_pages(v, root, n);
    lemma_paged_count(v, root, i, n);
    if is_paged(v, root, i) {
        lemma_node_page_at(v, root, i, n);
        let m = paged_count(v, root, i);
        assert(planned_pages(v, root, title)[1 + dirs.len() + m] == node_pages(v, root, n)[m]);
    } else {
        assert(0 <= dir_page(dirs, layout::dir_of(v.nodes[i], root)) < 1 + dirs.len());
    }
}

proof fn lemma_node_page_at(v: VaultView, root: PathView, i: int, k: int)
    requires
        0 <= i < k <= v.nodes.len(),
        is_paged(v, root, i),
    ensures
        0 <= paged_count(v, root, i) < node_pages(v, root, k).len(),
        node_pages(v, root, k)[paged_count(v, root, i)] == planned_node(
            layout::directories(v, root),
            v.nodes[i],
            root,
        ),
    decreases k,
{
    lemma_node_pages(v, root, k);
    lemma_node_pages(v, root, k - 1);
    lemma_paged_count(v, root, i, k - 1);
    if i < k - 1 {
        lemma_node_page_at(v, root, i, k - 1);
    }
}

/// Pages are created in order: directories by their paths, then nodes as they
/// stand in the vault. So the pages under one parent come to stand in order.
pub proof fn law_pages_in_order(v: VaultView, root: PathView, title: Seq<char>)
    ensures
        forall|k: int|
            0 <= k < layout::directories(v, root).len() ==> #[trigger] planned_pages(
                v,
                root,
                title,
            )[1 + k] == planned_dir(
                v,
                layout::directories(v, root),
                layout::directories(v, root)[k],
            ),
        order::strictly_ordered(layout::directories(v, root)),
        forall|i: int, j: int|
            0 <= i < j < v.nodes.len() && is_paged(v, root, i) && is_paged(v, root, j)
                ==> #[trigger] page_of_node(v, root, i) < #[trigger] page_of_node(v, root, j),
{
    let dirs = layout::directories(v, root);
    layout::law_directories(v, root);
    assert forall|k: int| 0 <= k < dirs.len() implies #[trigger] planned_pages(v, root, title)[1
        + k] == planned_dir(v, dirs, dirs[k]) by {
        assert(planned_pages(v, root, title)[1 + k] == dir_pages(v, root)[k]);
    }
    assert forall|i: int, j: int|
        0 <= i < j < v.nodes.len() && is_paged(v, root, i) && is_paged(
            v,
            root,
            j,
        ) implies #[trigger] page_of_node(v, root, i) < #[trigger] page_of_node(v, root, j) by {
        lemma_paged_count(v, root, i + 1, j);
    }
}

/// Two nodes on directory pages are on the same page only if they are in the
/// same directory, and a page of a node's own holds no other node.
pub proof fn law_pages_are_shared_within_a_directory(v: VaultView, root: PathView, i: int, j: int)
    requires
        0 <= i < v.nodes.len(),
        0 <= j < v.nodes.len(),
        i != j,
        page_of_node(v, root, i) == page_of_node(v, root, j),
    ensures
        !is_paged(v, root, i),
        !is_paged(v, root, j),
        layout::dir_of(v.nodes[i], root) == layout::dir_of(v.nodes[j], root),
{
    let n = v.nodes.len() as int;
    let dirs = layout::directories(v, root);
    let all = layout::chains(v, root, n);
    lemma_dir_pages(v, root);
    lemma_chains(v, root, n);
    order::lemma_path_set(all);
    lemma_paged_count(v, root, 0, i);
    lemma_paged_count(v, root, 0, j);
    if is_paged(v, root, i) && is_paged(v, root, j) {
        if i < j {
            lemma_paged_count(v, root, i + 1, j);
        } else {
            lemma_paged_count(v, root, j + 1, i);
        }
    }
    let (p, q) = (layout::dir_of(v.nodes[i], root), layout::dir_of(v.nodes[j], root));
    assert(0 <= dir_page(dirs, p) < 1 + dirs.len());
    assert(0 <= dir_page(dirs, q) < 1 + dirs.len());
    if p != path::empty_path() {
        assert(all.contains(p));
        assert(dirs.contains(p));
        lemma_index_in(dirs, p);
    }
    if q != path::empty_path() {
        assert(all.contains(q));
        assert(dirs.contains(q));
        lemma_index_in(dirs, q);
    }
}

// ---------------------------------------------------------------------
// Making the plan
// ---------------------------------------------------------------------

/// The pages to create, and the page of each node.
pub struct Plan {
    pub pages: Vec<PlannedPage>,
    /// For each node, the position of its page among the pages.
    pub node_pages: Vec<usize>,
    /// The number of directory pages.
    pub dir_count: usize,
    /// The number of nodes with a page of their own.
    pub paged_count: usize,
    /// The number of nodes on a directory's page.
    pub on_dir_count: usize,
    /// The number of directories with an index.
    pub index_count: usize,
}

/// Whether a plan is the plan of a vault.
pub open spec fn plan_of(p: Plan, v: VaultView, root: PathView, title: Seq<char>) -> bool {
    &&& p.pages.deep_view() == planned_pages(v, root, title)
    &&& p.node_pages@.len() == v.nodes.len()
    &&& forall|i: int|
        0 <= i < v.nodes.len() ==> #[trigger] p.node_pages@[i] == page_of_node(v, root, i)
    &&& p.dir_count == layout::directories(v, root).len()
    &&& p.paged_count == paged_count(v, root, v.nodes.len() as int)
    &&& p.on_dir_count == v.nodes.len() - p.paged_count
    &&& p.index_count == v.indexes.len()
}

/// Whether pages come after their parents, and nodes go on pages that exist.
pub open spec fn plan_valid(p: Plan) -> bool {
    &&& p.pages@.len() > 0
    &&& forall|k: int| 1 <= k < p.pages@.len() ==> (#[trigger] p.pages@[k]).parent < k
    &&& forall|i: int|
        0 <= i < p.node_pages@.len() ==> #[trigger] p.node_pages@[i] < p.pages@.len()
    &&& p.pages@.len() == 1 + p.dir_count + p.paged_count
}

fn find_dir_page(dirs: &Vec<VaultPath>, d: &VaultPath) -> (r: usize)
    requires
        d.deep_view() == path::empty_path() || dirs.deep_view().contains(d.deep_view()),
    ensures
        r == dir_page(dirs.deep_view(), d.deep_view()),
{
    if !d.absolute && d.parts.len() == 0 {
        assert(d.deep_view() =~= path::empty_path());
        return 0;
    }
    assert(d.deep_view() != path::empty_path()) by {
        assert(d.deep_view().absolute || d.deep_view().parts.len() > 0);
    }
    let ghost all = dirs.deep_view();
    let ghost x = d.deep_view();
    let mut i: usize = 0;
    assert(all.skip(0) =~= all);
    while i < dirs.len()
        invariant
            all == dirs.deep_view(),
            x == d.deep_view(),
            x != path::empty_path(),
            all.contains(x),
            i <= dirs@.len(),
            index_in(all, x) == i + index_in(all.skip(i as int), x),
        decreases dirs.len() - i,
    {
        assert(all.skip(i as int).first() == dirs[i as int].deep_view());
        if dirs[i].same(d) {
            return i + 1;
        }
        assert(all.skip(i as int).drop_first() =~= all.skip(i + 1));
        i = i + 1;
    }
    proof {
        lemma_index_in(all, x);
        assert(all.skip(i as int).len() == 0);
        assert(false);
    }
    0
}

fn above(d: &VaultPath) -> (r: VaultPath)
    ensures
        r.deep_view() == dir_above(d.deep_view()),
{
    match d.parent() {
        Some(p) => p,
        None => VaultPath::empty(),
    }
}

fn push_page(pages: &mut Vec<PlannedPage>, page: PlannedPage)
    ensures
        final(pages).deep_view() == old(pages).deep_view().push(page.deep_view()),
        final(pages)@.len() == old(pages)@.len() + 1,
{
    let ghost before = pages.deep_view();
    pages.push(page);
    assert(pages.deep_view() =~= before.push(page.deep_view()));
}

fn plan_dirs(
    v: &Vault,
    vault_dir: &VaultPath,
    dirs: &Vec<VaultPath>,
    title: &str,
) -> (r: Vec<PlannedPage>)
    requires
        dirs.deep_view() == layout::directories(v.deep_view(), vault_dir.deep_view()),
    ensures
        r.deep_view() == seq![root_page(title@)] + dir_pages(v.deep_view(), vault_dir.deep_view()),
{
    let ghost vv = v.deep_view();
    let ghost root = vault_dir.deep_view();
    let ghost ds = dirs.deep_view();
    let ghost planned = dir_pages(vv, root);
    let mut pages: Vec<PlannedPage> = Vec::new();
    pages.push(
        PlannedPage {
            parent: 0,
            title: title.to_owned(),
            context: "failed to create the snapshot root page".to_owned(),
        },
    );
    assert(pages.deep_view() =~= seq![root_page(title@)] + planned.take(0));
    let mut i: usize = 0;
    while i < dirs.len()
        invariant
            vv == v.deep_view(),
            root == vault_dir.deep_view(),
            ds == dirs.deep_view(),
            ds == layout::directories(vv, root),
            planned == dir_pages(vv, root),
            i <= dirs@.len(),
            pages.deep_view() == seq![root_page(title@)] + planned.take(i as int),
        decreases dirs.len() - i,
    {
        let ghost d = ds[i as int];
        let parent_dir: VaultPath = above(&dirs[i]);
        proof {
            assert(d == dirs[i as int].deep_view());
            let all = layout::chains(vv, root, vv.nodes.len() as int);
            order::lemma_path_set(all);
            lemma_chains(vv, root, vv.nodes.len() as int);
            assert(ds.contains(d));
            assert(all.contains(d));
            if dir_above(d) != path::empty_path() {
                assert(all.contains(dir_above(d)));
                assert(ds.contains(dir_above(d)));
            }
        }
        let parent: usize = find_dir_page(dirs, &parent_dir);
        let mut context: String = text::concat2(
            "failed to create the page for directory \"",
            dirs[i].to_text().as_str(),
        );
        context.append("\"");
        let page: PlannedPage = PlannedPage {
            parent,
            title: layout::directory_page_title(v, &dirs[i]),
            context,
        };
        push_page(&mut pages, page);
        proof {
            assert(planned[i as int] == planned_dir(vv, ds, d));
            assert(pages.deep_view() =~= seq![root_page(title@)] + planned.take(i + 1));
        }
        i = i + 1;
    }
    assert(planned.take(i as int) =~= planned);
    pages
}

/// Plans the pages of a snapshot.
pub fn make_plan(v: &Vault, vault_dir: &VaultPath, title: &str) -> (r: Plan)
    ensures
        plan_of(r, v.deep_view(), vault_dir.deep_view(), title@),
        plan_valid(r),
{
    let ghost vv = v.deep_view();
    let ghost root = vault_dir.deep_view();
    let dirs: Vec<VaultPath> = layout::page_directories(v, vault_dir);
    let ghost ds = dirs.deep_view();
    let mut pages: Vec<PlannedPage> = plan_dirs(v, vault_dir, &dirs, title);
    let ghost head = pages.deep_view();
    let mut node_page_list: Vec<usize> = Vec::new();
    let mut paged: usize = 0;
    let mut i: usize = 0;
    assert(head + node_pages(vv, root, 0) =~= head);
    while i < v.nodes.len()
        invariant
            vv == v.deep_view(),
            root == vault_dir.deep_view(),
            ds == dirs.deep_view(),
            ds == layout::directories(vv, root),
            head == seq![root_page(title@)] + dir_pages(vv, root),
            head.len() == 1 + ds.len(),
            i <= v.nodes@.len(),
            paged <= i,
            paged == paged_count(vv, root, i as int),
            pages@.len() == pages.deep_view().len(),
            pages.deep_view() == head + node_pages(vv, root, i as int),
            pages@.len() == 1 + ds.len() + paged,
            node_page_list@.len() == i,
            forall|j: int|
                0 <= j < i ==> #[trigger] node_page_list@[j] == page_of_node(vv, root, j),
        decreases v.nodes.len() - i,
    {
        let ghost n = vv.nodes[i as int];
        let dir: VaultPath = layout::node_dir(&v.nodes[i], vault_dir);
        proof {
            assert(n == v.nodes[i as int].deep_view());
            let all = layout::chains(vv, root, vv.nodes.len() as int);
            order::lemma_path_set(all);
            lemma_chains(vv, root, vv.nodes.len() as int);
            if layout::dir_of(n, root) != path::empty_path() {
                assert(all.contains(layout::dir_of(n, root)));
                assert(ds.contains(layout::dir_of(n, root)));
            }
        }
        let parent: usize = find_dir_page(&dirs, &dir);
        match layout::placement(v, vault_dir, &v.nodes[i]) {
            Placement::Paged => {
                node_page_list.push(pages.len());
                let context: String = text::concat2(
                    "failed to create the page for node ",
                    text::debug_quote(v.nodes[i].title.as_str()).as_str(),
                );
                let page: PlannedPage = PlannedPage {
                    parent,
                    title: v.nodes[i].title.clone(),
                    context,
                };
                push_page(&mut pages, page);
                assert(pages.deep_view() =~= head + node_pages(vv, root, i + 1));
                paged = paged + 1;
            },
            _ => {
                node_page_list.push(parent);
            },
        }
        i = i + 1;
    }
    let plan: Plan = Plan {
        pages,
        node_pages: node_page_list,
        dir_count: dirs.len(),
        paged_count: paged,
        on_dir_count: v.nodes.len() - paged,
        index_count: v.indexes.len(),
    };
    proof {
        lemma_parents_first(vv, root, title@);
        let all = planned_pages(vv, root, title@);
        assert(plan.pages.deep_view() == all);
        assert forall|k: int| 1 <= k < plan.pages@.len() implies (#[trigger] plan.pages@[k]).parent
            < k by {
            assert(all[k] == plan.pages@[k].deep_view());
        }
        assert forall|j: int| 0 <= j < plan.node_pages@.len() implies #[trigger] plan.node_pages@[j]
            < plan.pages@.len() by {
            lemma_node_has_page(vv, root, title@, j);
        }
    }
    plan
}

// ---------------------------------------------------------------------
// Creating the pages
// ---------------------------------------------------------------------

/// Creates the pages of a plan, one after another.
pub struct PageCreation {
    pub plan: Plan,
    /// The page to publish under.
    pub parent_page_id: String,
    /// The pages created so far.
    pub created: Vec<CreatedPage>,
}

/// A page to create now.
#[derive(Debug, Clone, PartialEq, Eq)]
pub struct CreateRequest {
    pub parent_id: String,
    pub title: String,
}

/// What is reported, and the page to create; none when all are there.
pub struct CreateStep {
    pub lines: Vec<String>,
    pub request: Option<CreateRequest>,
}

/// Whether a creation is under way.
pub open spec fn creation_valid(c: PageCreation) -> bool {
    plan_valid(c.plan) && c.created@.len() <= c.plan.pages@.len()
}

/// The line that says how many node pages are created.
pub open spec fn node_pages_line(paged: nat, on_dir: nat, indexes: nat) -> Seq<char> {
    if on_dir == 0 {
        "Creating "@ + text::decimal(paged) + " node page(s)..."@
    } else {
        "Creating "@ + text::decimal(paged) + " node page(s) ("@ + text::decimal(on_dir)
            + " node(s) rendered on "@ + text::decimal(indexes) + " directory page(s))..."@
    }
}

/// What is reported before the page that comes next.
pub open spec fn creation_lines(c: PageCreation) -> Seq<Seq<char>> {
    let k = c.created@.len();
    let nodes = seq![
        node_pages_line(
            c.plan.paged_count as nat,
            c.plan.on_dir_count as nat,
            c.plan.index_count as nat,
        ),
    ];
    if k == 0 {
        seq!["Creating snapshot root page \""@ + c.plan.pages@[0].title@ + "\"..."@]
    } else if k == 1 {
        let dirs = seq![
            "Root page created: "@ + c.created@[0].url@,
            "Creating "@ + text::decimal(c.plan.dir_count as nat) + " directory page(s)..."@,
        ];
        if c.plan.dir_count == 0 {
            dirs + nodes
        } else {
            dirs
        }
    } else if k == 1 + c.plan.dir_count {
        nodes
    } else {
        Seq::<Seq<char>>::empty()
    }
}

/// The ID of the parent of the page that comes next.
pub open spec fn next_parent(c: PageCreation) -> Seq<char> {
    let k = c.created@.len() as int;
    if k == 0 {
        c.parent_page_id@
    } else {
        c.created@[c.plan.pages@[k].parent as int].id@
    }
}

/// The URL of the root page, once it is there.
pub open spec fn root_url_of(created: Seq<CreatedPageView>) -> Option<Seq<char>> {
    if created.len() == 0 {
        None
    } else {
        Some(created[0].url)
    }
}

fn line_of_node_pages(paged: usize, on_dir: usize, indexes: usize) -> (r: String)
    ensures
        r@ == node_pages_line(paged as nat, on_dir as nat, indexes as nat),
{
    let mut s: String = text::concat2("Creating ", text::to_decimal(paged).as_str());
    if on_dir == 0 {
        s.append(" node page(s)...");
    } else {
        s.append(" node page(s) (");
        s.append(text::to_decimal(on_dir).as_str());
        s.append(" node(s) rendered on ");
        s.append(text::to_decimal(indexes).as_str());
        s.append(" directory page(s))...");
    }
    s
}

impl PageCreation {
    /// A creation that has created nothing.
    pub fn new(plan: Plan, parent_page_id: String) -> (r: PageCreation)
        requires
            plan_valid(plan),
        ensures
            r.plan == plan,
            r.parent_page_id == parent_page_id,
            r.created@.len() == 0,
            creation_valid(r),
    {
        PageCreation { plan, parent_page_id, created: Vec::new() }
    }

    fn lines(&self) -> (r: Vec<String>)
        requires
            creation_valid(*self),
        ensures
            r.deep_view() == creation_lines(*self),
    {
        let mut lines: Vec<String> = Vec::new();
        let k: usize = self.created.len();
        if k == 0 {
            let mut s: String = text::concat2(
                "Creating snapshot root page \"",
                self.plan.pages[0].title.as_str(),
            );
            s.append("\"...");
            lines.push(s);
        } else {
            if k == 1 {
                lines.push(text::concat2("Root page created: ", self.created[0].url.as_str()));
                let mut s: String = text::concat2(
                    "Creating ",
                    text::to_decimal(self.plan.dir_count).as_str(),
                );
                s.append(" directory page(s)...");
                lines.push(s);
            }
            if k - 1 == self.plan.dir_count {
                lines.push(
                    line_of_node_pages(
                        self.plan.paged_count,
                        self.plan.on_dir_count,
                        self.plan.index_count,
                    ),
                );
            }
        }
        assert(lines.deep_view() =~= creation_lines(*self));
        lines
    }

    /// What to report, and the page to create next.
    pub fn next(&self) -> (r: CreateStep)
        requires
            creation_valid(*self),
        ensures
            r.lines.deep_view() == creation_lines(*self),
            match r.request {
                Some(q) => {
                    &&& self.created@.len() < self.plan.pages@.len()
                    &&& q.title@ == self.plan.pages@[self.created@.len() as int].title@
                    &&& q.parent_id@ == next_parent(*self)
                },
                None => self.created@.len() == self.plan.pages@.len(),
            },
    {
        let lines: Vec<String> = self.lines();
        let k: usize = self.created.len();
        if k >= self.plan.pages.len() {
            return CreateStep { lines, request: None };
        }
        let title: String = self.plan.pages[k].title.clone();
        let parent_id: String = if k == 0 {
            self.parent_page_id.clone()
        } else {
            self.created[self.plan.pages[k].parent].id.clone()
        };
        CreateStep { lines, request: Some(CreateRequest { parent_id, title }) }
    }

    /// Takes the page that was created.
    pub fn accept(&mut self, page: CreatedPage)
        requires
            creation_valid(*old(self)),
            old(self).created@.len() < old(self).plan.pages@.len(),
        ensures
            final(self).plan == old(self).plan,
            final(self).parent_page_id == old(self).parent_page_id,
            final(self).created@ == old(self).created@.push(page),
            creation_valid(*final(self)),
    {
        self.created.push(page);
    }

    /// The URL of the root page, once it is there.
    pub fn root_url(&self) -> (r: Option<String>)
        ensures
            r.deep_view() == root_url_of(self.created.deep_view()),
    {
        if self.created.len() == 0 {
            None
        } else {
            Some(self.created[0].url.clone())
        }
    }

    /// How the run fails if the page that comes next cannot be created.
    pub fn failure(&self, source: NotionError) -> (r: RunError)
        requires
            creation_valid(*self),
            self.created@.len() < self.plan.pages@.len(),
        ensures
            r.deep_view() == (RunErrorView::Api {
                context: self.plan.pages@[self.created@.len() as int].context@,
                source: source.deep_view(),
                root_url: root_url_of(self.created.deep_view()),
            }),
    {
        RunError::Api {
            context: self.plan.pages[self.created.len()].context.clone(),
            source,
            root_url: self.root_url(),
        }
    }

    /// The page ID of each node, when all pages are there.
    pub fn node_page_ids(&self) -> (r: Vec<String>)
        requires
            creation_valid(*self),
            self.created@.len() == self.plan.pages@.len(),
        ensures
            r@.len() == self.plan.node_pages@.len(),
            forall|i: int|
                0 <= i < r@.len() ==> (#[trigger] r.deep_view()[i])
                    == self.created@[self.plan.node_pages@[i] as int].id@,
    {
        let mut out: Vec<String> = Vec::new();
        let mut i: usize = 0;
        while i < self.plan.node_pages.len()
            invariant
                creation_valid(*self),
                self.created@.len() == self.plan.pages@.len(),
                i <= self.plan.node_pages@.len(),
                out@.len() == i,
                forall|j: int|
                    0 <= j < i ==> (#[trigger] out.deep_view()[j])
                        == self.created@[self.plan.node_pages@[j] as int].id@,
            decreases self.plan.node_pages.len() - i,
        {
            let ghost before = out.deep_view();
            let p: usize = self.plan.node_pages[i];
            out.push(self.created[p].id.clone());
            assert(out.deep_view() =~= before.push(self.created@[p as int].id@));
            i = i + 1;
        }
        out
    }
}

} // verus!
