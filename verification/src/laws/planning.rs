//! Where nodes go and which pages there are, said of the files and directories
//! themselves.

use crate::laws::paths;
use crate::laws::scanning;
use crate::layout;
use crate::layout::{NodeKey, Placement};
use crate::order;
use crate::org_parser::NodeView;
use crate::pages;
use crate::path;
use crate::path::PathView;
use crate::text;
use crate::vault;
use crate::vault::VaultView;
use vstd::prelude::*;

verus! {

// ---------------------------------------------------------------------
// Places
// ---------------------------------------------------------------------

/// The directory of a node is what stands between the vault and the name of its
/// file.
pub proof fn law_directory_of_node(
    n: NodeView,
    root: PathView,
    dirs: Seq<Seq<char>>,
    name: Seq<char>,
)
    requires
        root.parts.len() > 0 || root.absolute,
        n.file_path.absolute == root.absolute,
        n.file_path.parts == root.parts + dirs.push(name),
    ensures
        layout::dir_of(n, root) == (PathView { absolute: false, parts: dirs }),
{
    let below = PathView { absolute: false, parts: dirs.push(name) };
    paths::law_relative_path(n.file_path, root, below);
    assert(dirs.push(name).drop_last() =~= dirs);
}

/// A node goes on a page of its own, unless its directory has an index: the node
/// that the index names goes on the directory's page, and so do the others where
/// the layout is flat.
pub proof fn law_places(v: VaultView, root: PathView, n: NodeView, k: int)
    ensures
        ({
            let dir = layout::dir_of(n, root);
            let none = forall|j: int|
                0 <= j < v.indexes.len() ==> (#[trigger] v.indexes[j]).dir != dir;
            let first = 0 <= k < v.indexes.len() && v.indexes[k].dir == dir && forall|j: int|
                0 <= j < k ==> (#[trigger] v.indexes[j]).dir != dir;
            let x = v.indexes[k];
            &&& none ==> layout::placed(v, root, n) == Placement::Paged
            &&& first && x.file == n.file_path ==> layout::placed(v, root, n) == Placement::Index
            &&& first && x.file != n.file_path && x.flat ==> layout::placed(v, root, n)
                == Placement::Merged
            &&& first && x.file != n.file_path && !x.flat ==> layout::placed(v, root, n)
                == Placement::Paged
        }),
{
    scanning::law_index_of_directory(v, layout::dir_of(n, root), k, 0);
}

/// The page of a directory is called as its index node, and without one as the
/// directory.
pub proof fn law_directory_title(v: VaultView, dir: PathView, name: Seq<char>)
    ensures
        vault::index_node_of(v, dir) is Some ==> layout::dir_title(v, dir) == (
        vault::index_node_of(v, dir)->0).title,
        vault::index_node_of(v, dir) is None && dir.parts.len() > 0 && dir.parts.last() == name
            && name != "."@ && name != ".."@ ==> layout::dir_title(v, dir) == name,
        vault::index_node_of(v, dir) is None && (dir.parts.len() == 0 || dir.parts.last() == "."@
            || dir.parts.last() == ".."@) ==> layout::dir_title(v, dir) == ""@,
{
}

/// A node is ordered by the name of its file; fourteen digits and a hyphen before
/// it, which is how Org-roam dates its files, do not count.
pub proof fn law_sort_name(n: NodeView, name: Seq<char>)
    requires
        path::name_of(n.file_path) == Some(name),
    ensures
        forall|stamp: Seq<char>, rest: Seq<char>|
            #![trigger stamp + rest]
            name == stamp + rest && stamp.len() == 15 && stamp[14] == '-' && rest.len() > 0 && (
            forall|i: int| 0 <= i < 14 ==> '0' <= #[trigger] stamp[i] <= '9') ==> layout::sort_name(
                n,
            ) == rest,
        name.len() <= 15 ==> layout::sort_name(n) == name,
        name.len() > 15 && name[14] != '-' ==> layout::sort_name(n) == name,
        forall|i: int|
            0 <= i < 14 && i < name.len() && !('0' <= #[trigger] name[i] <= '9')
                ==> layout::sort_name(n) == name,
{
    assert forall|stamp: Seq<char>, rest: Seq<char>|
        #![trigger stamp + rest]
        name == stamp + rest && stamp.len() == 15 && stamp[14] == '-' && rest.len() > 0 && (forall|
            i: int,
        |
            0 <= i < 14 ==> '0' <= #[trigger] stamp[i] <= '9') implies layout::sort_name(n)
        == rest by {
        assert forall|i: int| 0 <= i < 14 implies '0' <= #[trigger] name[i] <= '9' by {
            assert(name[i] == stamp[i]);
        }
        assert(name[14] == stamp[14]);
        assert(name.skip(15) =~= rest);
    }
}

/// A node whose file has no name has none to be ordered by.
pub proof fn law_no_sort_name(n: NodeView)
    requires
        path::name_of(n.file_path) is None,
    ensures
        layout::sort_name(n) == ""@,
{
}

/// Of two nodes the one is shown before the other that comes first by its
/// directory; within a directory the index node comes first, then the others by
/// their names; and nodes of the same name as they stand in the vault.
pub proof fn law_order_of_nodes(v: VaultView, root: PathView, a: int, b: int)
    requires
        0 <= a < b < v.nodes.len(),
    ensures
        ({
            let i = layout::display_order(v, root)[a];
            let j = layout::display_order(v, root)[b];
            let (x, y) = (v.nodes[i], v.nodes[j]);
            let x_leads = layout::placed(v, root, x) == Placement::Index;
            let y_leads = layout::placed(v, root, y) == Placement::Index;
            let (dx, dy) = (layout::dir_of(x, root), layout::dir_of(y, root));
            &&& dx != dy ==> path::path_before(dx, dy)
            &&& dx == dy && x_leads != y_leads ==> x_leads
            &&& dx == dy && x_leads == y_leads && layout::sort_name(x) != layout::sort_name(y)
                ==> text::text_before(layout::sort_name(x), layout::sort_name(y))
            &&& dx == dy && x_leads == y_leads && layout::sort_name(x) == layout::sort_name(y)
                ==> i < j
        }),
{
    let keys = layout::node_keys(v, root);
    let sorted = order::sorted::<NodeKey>(keys);
    order::lemma_sorted::<NodeKey>(keys);
    layout::law_every_node_shown_once(v, root);
    let (p, q) = (sorted[a], sorted[b]);
    assert(sorted.contains(p));
    assert(sorted.contains(q));
    assert(keys.contains(p));
    assert(keys.contains(q));
    let i = choose|i: int| 0 <= i < keys.len() && keys[i] == p;
    let j = choose|j: int| 0 <= j < keys.len() && keys[j] == q;
    assert(layout::display_order(v, root)[a] == p.index);
    assert(layout::display_order(v, root)[b] == q.index);
    assert(p.index == i && q.index == j);
    let order = layout::display_order(v, root);
    assert(order[a] != order[b]);
    assert(!<NodeKey as order::Ordered>::before(q, p));
    path::lemma_path_order(p.dir, q.dir, q.dir);
    text::lemma_text_before_total(p.name, q.name);
}

// ---------------------------------------------------------------------
// The planned tree
// ---------------------------------------------------------------------

proof fn lemma_dir_lines(v: VaultView, dirs: Seq<PathView>, seen: Seq<PathView>)
    ensures
        layout::dir_lines(v, dirs, seen) == dirs.filter(
            |d: PathView| !seen.contains(d),
        ).map_values(|d: PathView| layout::dir_line(v, d)),
    decreases dirs.len(),
{
    reveal(Seq::filter);
    let f = |d: PathView| !seen.contains(d);
    let g = |d: PathView| layout::dir_line(v, d);
    if dirs.len() > 0 {
        lemma_dir_lines(v, dirs.drop_last(), seen);
        assert(layout::dir_lines(v, dirs, seen) =~= dirs.filter(f).map_values(g));
    } else {
        assert(layout::dir_lines(v, dirs, seen) =~= dirs.filter(f).map_values(g));
    }
}

/// The plan lists the nodes in order, each behind the lines of those of its
/// directories that have not been listed: a directory is listed once, before
/// everything in it.
pub proof fn law_tree_lines(v: VaultView, root: PathView, k: int)
    requires
        0 <= k < v.nodes.len(),
    ensures
        ({
            let n = v.nodes[k];
            let seen = layout::chains(v, root, k);
            let new = path::chain(layout::dir_of(n, root)).filter(
                |d: PathView| !seen.contains(d),
            );
            &&& layout::tree_lines(v, root, k + 1) == layout::tree_lines(v, root, k)
                + new.map_values(|d: PathView| layout::dir_line(v, d)) + seq![
                layout::node_line(n, root),
            ]
            &&& layout::chains(v, root, k + 1) == seen + path::chain(layout::dir_of(n, root))
        }),
        layout::tree_lines(v, root, 0).len() == 0,
        layout::chains(v, root, 0).len() == 0,
{
    let n = v.nodes[k];
    let seen = layout::chains(v, root, k);
    let dirs = path::chain(layout::dir_of(n, root));
    lemma_dir_lines(v, dirs, seen);
    let new = dirs.filter(|d: PathView| !seen.contains(d)).map_values(
        |d: PathView| layout::dir_line(v, d),
    );
    assert(layout::tree_lines(v, root, k + 1) =~= layout::tree_lines(v, root, k) + new + seq![
        layout::node_line(n, root),
    ]);
}

/// The number of directories in a path, with that at the top of an absolute one.
pub open spec fn levels(p: PathView) -> nat {
    if p.absolute {
        1 + p.parts.len()
    } else {
        p.parts.len()
    }
}

/// A line is indented by two spaces for each directory above, and one level more
/// for a node; it names the directory and whether it is flat, or the node with
/// its ID and how many blocks and links it has.
pub proof fn law_lines_of_the_tree(v: VaultView, dir: PathView, n: NodeView, root: PathView)
    ensures
        layout::dir_line(v, dir) == text::indent(levels(dir)) + "- "@ + layout::dir_title(
            v,
            dir,
        ) + "/"@ + (if vault::index_for(v, dir) is Some && (vault::index_for(v, dir)->0).flat {
            " (flat)"@
        } else {
            ""@
        }),
        layout::node_line(n, root) == text::indent(levels(layout::dir_of(n, root)) + 1) + "- "@
            + n.title + " ("@ + n.id + ", "@ + text::decimal(n.blocks.len()) + " block(s), "@
            + text::decimal(n.links.len()) + " link(s))"@,
{
}

// ---------------------------------------------------------------------
// Pages
// ---------------------------------------------------------------------

proof fn lemma_index_in(dirs: Seq<PathView>, d: PathView, j: int)
    requires
        0 <= j < dirs.len(),
        dirs[j] == d,
        order::strictly_ordered(dirs),
    ensures
        pages::index_in(dirs, d) == j,
    decreases dirs.len(),
{
    if j > 0 {
        let t = dirs.drop_first();
        assert(dirs[0] == dirs.first());
        assert(path::path_before(dirs[0], dirs[j]));
        path::lemma_path_order(d, d, d);
        assert(t[j - 1] == d);
        assert forall|a: int, b: int|
            #![trigger t[a], t[b]]
            0 <= a < b < t.len() implies path::path_before(t[a], t[b]) by {
            assert(path::path_before(dirs[a + 1], dirs[b + 1]));
        }
        lemma_index_in(t, d, j - 1);
    }
}

/// Whether the `page`th page is that of a directory: the first one for the vault
/// itself, and otherwise the one that comes as the directory does.
pub open spec fn is_page_of(dirs: Seq<PathView>, d: PathView, page: int) -> bool {
    ||| d.parts.len() == 0 && !d.absolute && page == 0
    ||| 1 <= page <= dirs.len() && dirs[page - 1] == d
}

/// The pages are the root page, which bears the snapshot's title; one for each
/// directory, in order, under the page of the directory above it; and one for
/// each node that has its own, under the page of its directory and with its
/// title.
pub proof fn law_page_tree(v: VaultView, root: PathView, title: Seq<char>, k: int, i: int)
    requires
        0 <= k < layout::directories(v, root).len(),
        0 <= i < v.nodes.len(),
    ensures
        ({
            let dirs = layout::directories(v, root);
            let all = pages::planned_pages(v, root, title);
            let d = dirs[k];
            let above = PathView { absolute: d.absolute, parts: d.parts.drop_last() };
            let own = pages::page_of_node(v, root, i);
            &&& all[0].title == title
            &&& all[1 + k].title == layout::dir_title(v, d)
            &&& d.parts.len() > 0 ==> is_page_of(dirs, above, all[1 + k].parent)
            &&& layout::placed(v, root, v.nodes[i]) == Placement::Paged ==> {
                &&& 1 + dirs.len() <= own < all.len()
                &&& all[own].title == v.nodes[i].title
                &&& is_page_of(dirs, layout::dir_of(v.nodes[i], root), all[own].parent)
            }
            &&& layout::placed(v, root, v.nodes[i]) != Placement::Paged ==> is_page_of(
                dirs,
                layout::dir_of(v.nodes[i], root),
                own,
            )
        }),
{
    let dirs = layout::directories(v, root);
    let all = pages::planned_pages(v, root, title);
    let d = dirs[k];
    let dir = layout::dir_of(v.nodes[i], root);
    layout::law_directories(v, root);
    pages::law_pages_in_order(v, root, title);
    pages::lemma_node_has_page(v, root, title, i);
    pages::lemma_dir_pages(v, root);
    lemma_dir_page(v, root, dir, i);
    if d.parts.len() > 0 {
        let above = PathView { absolute: d.absolute, parts: d.parts.drop_last() };
        assert(dirs.contains(d));
        let m = choose|m: int|
            0 <= m < v.nodes.len() && path::chain(layout::dir_of(#[trigger] v.nodes[m], root)).contains(
                d,
            );
        lemma_chain_closed(layout::dir_of(v.nodes[m], root), d);
        if above.parts.len() > 0 || above.absolute {
            assert(dirs.contains(above));
            let j = choose|j: int| 0 <= j < dirs.len() && dirs[j] == above;
            lemma_index_in(dirs, above, j);
            assert(above != path::empty_path());
        } else {
            assert(above.parts =~= path::empty_path().parts);
        }
        assert(pages::dir_above(d) == above);
    }
    if layout::placed(v, root, v.nodes[i]) == Placement::Paged {
        assert(pages::is_paged(v, root, i));
        lemma_paged_count_nonneg(v, root, i);
    }
}

proof fn lemma_paged_count_nonneg(v: VaultView, root: PathView, k: int)
    ensures
        pages::paged_count(v, root, k) >= 0,
    decreases k,
{
    if k > 0 {
        lemma_paged_count_nonneg(v, root, k - 1);
    }
}

proof fn lemma_dir_page(v: VaultView, root: PathView, dir: PathView, i: int)
    requires
        0 <= i < v.nodes.len(),
        dir == layout::dir_of(v.nodes[i], root),
    ensures
        is_page_of(
            layout::directories(v, root),
            dir,
            pages::dir_page(layout::directories(v, root), dir),
        ),
{
    let dirs = layout::directories(v, root);
    layout::law_directories(v, root);
    if dir.parts.len() > 0 || dir.absolute {
        let c = path::chain(dir);
        paths::law_chain(dir, c.len() - 1);
        assert(dir.parts.take(dir.parts.len() as int) =~= dir.parts);
        assert(c[c.len() - 1] == dir);
        assert(c.contains(dir));
        assert(dirs.contains(dir));
        let j = choose|j: int| 0 <= j < dirs.len() && dirs[j] == dir;
        lemma_index_in(dirs, dir, j);
        assert(dir != path::empty_path());
    } else {
        assert(dir.parts =~= path::empty_path().parts);
    }
}

proof fn lemma_chain_closed(p: PathView, d: PathView)
    requires
        path::chain(p).contains(d),
        d.parts.len() > 0,
    ensures
        ({
            let above = PathView { absolute: d.absolute, parts: d.parts.drop_last() };
            above.parts.len() > 0 || above.absolute ==> path::chain(p).contains(above)
        }),
{
    let c = path::chain(p);
    let i = choose|i: int| 0 <= i < c.len() && c[i] == d;
    paths::law_chain(p, i);
    paths::law_chain(p, i - 1);
    let above = PathView { absolute: d.absolute, parts: d.parts.drop_last() };
    if above.parts.len() > 0 || above.absolute {
        assert(i > 0);
        if p.absolute {
            assert(p.parts.take(i).drop_last() =~= p.parts.take(i - 1));
        } else {
            assert(p.parts.take(i + 1).drop_last() =~= p.parts.take(i));
        }
        assert(c[i - 1] == above);
    }
}

/// Nodes with pages of their own get theirs in the order of the vault, with none
/// between them, and no page beyond these is created.
pub proof fn law_node_pages_in_order(v: VaultView, root: PathView, title: Seq<char>)
    ensures
        pages::planned_pages(v, root, title).len() == 1 + layout::directories(v, root).len()
            + pages::paged_count(v, root, v.nodes.len() as int),
        pages::paged_count(v, root, 0) == 0,
        forall|k: int|
            0 <= k < v.nodes.len() ==> #[trigger] pages::paged_count(v, root, k + 1)
                == pages::paged_count(v, root, k) + (if layout::placed(v, root, v.nodes[k])
                == Placement::Paged {
                1int
            } else {
                0int
            }),
        forall|k: int|
            0 <= k < v.nodes.len() && layout::placed(v, root, v.nodes[k]) == Placement::Paged
                ==> #[trigger] pages::page_of_node(v, root, k) == 1 + layout::directories(
                v,
                root,
            ).len() + pages::paged_count(v, root, k),
{
    lemma_node_pages_len(v, root, v.nodes.len() as int);
}

proof fn lemma_node_pages_len(v: VaultView, root: PathView, k: int)
    ensures
        pages::node_pages(v, root, k).len() == pages::paged_count(v, root, k),
    decreases k,
{
    if k > 0 {
        lemma_node_pages_len(v, root, k - 1);
    }
}

/// The parent of the page that comes next is the page that the snapshot goes
/// under for the first, and otherwise the page that the plan says, by the ID
/// that it was created with.
pub proof fn law_parent_of_next_page(c: pages::PageCreation)
    ensures
        c.created@.len() == 0 ==> pages::next_parent(c) == c.parent_page_id@,
        0 < c.created@.len() < c.plan.pages@.len() ==> pages::next_parent(c)
            == c.created@[c.plan.pages@[c.created@.len() as int].parent as int].id@,
        c.created@.len() == 0 ==> pages::root_url_of(c.created.deep_view()) is None,
        c.created@.len() > 0 ==> pages::root_url_of(c.created.deep_view()) == Some(
            c.created@[0].url@,
        ),
{
}

} // verus!
