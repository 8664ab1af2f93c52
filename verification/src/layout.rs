//! How a vault is laid out in Notion: which page a node's content goes on, in
//! which order, and which directories get a page.

use crate::order;
use crate::order::Ordered;
use crate::org_parser::{Node, NodeView};
use crate::path;
use crate::path::{PathView, VaultPath};
use crate::text;
use crate::vault;
use crate::vault::{Vault, VaultView};
use vstd::prelude::*;

verus! {

// ---------------------------------------------------------------------
// Where a node goes
// ---------------------------------------------------------------------

/// The directory of a node, relative to the vault root; empty for the root.
pub open spec fn dir_of(n: NodeView, root: PathView) -> PathView {
    match path::parent_of(vault::below(n.file_path, root)) {
        Some(d) => d,
        None => path::empty_path(),
    }
}

/// Where a node's content goes.
#[derive(Debug, Clone, Copy, PartialEq, Eq, Structural)]
pub enum Placement {
    /// On its directory's page, which takes the node's title.
    Index,
    /// On its directory's page, behind the index node.
    Merged,
    /// On a page of its own.
    Paged,
}

/// Where a node's content goes.
pub open spec fn placed(v: VaultView, root: PathView, n: NodeView) -> Placement {
    match vault::index_for(v, dir_of(n, root)) {
        Some(index) => if index.file == n.file_path {
            Placement::Index
        } else if index.flat {
            Placement::Merged
        } else {
            Placement::Paged
        },
        None => Placement::Paged,
    }
}

/// The title of a directory's page: that of its index node, or else the name
/// of the directory.
pub open spec fn dir_title(v: VaultView, dir: PathView) -> Seq<char> {
    match vault::index_node_of(v, dir) {
        Some(n) => n.title,
        None => match path::name_of(dir) {
            Some(name) => name,
            None => ""@,
        },
    }
}

/// The directory of a node.
pub fn node_dir(node: &Node, vault_dir: &VaultPath) -> (r: VaultPath)
    ensures
        r.deep_view() == dir_of(node.deep_view(), vault_dir.deep_view()),
{
    let rel: VaultPath = match node.file_path.strip_prefix(vault_dir) {
        Some(p) => p,
        None => node.file_path.clone(),
    };
    match rel.parent() {
        Some(d) => d,
        None => VaultPath::empty(),
    }
}

/// Where a node's content goes.
pub fn placement(v: &Vault, vault_dir: &VaultPath, node: &Node) -> (r: Placement)
    ensures
        r == placed(v.deep_view(), vault_dir.deep_view(), node.deep_view()),
{
    let dir: VaultPath = node_dir(node, vault_dir);
    match v.index_of(&dir) {
        Some(index) => if index.file.same(&node.file_path) {
            Placement::Index
        } else if index.flat {
            Placement::Merged
        } else {
            Placement::Paged
        },
        None => Placement::Paged,
    }
}

/// The title of a directory's page.
pub fn directory_page_title(v: &Vault, dir: &VaultPath) -> (r: String)
    ensures
        r@ == dir_title(v.deep_view(), dir.deep_view()),
{
    match v.index_node(dir) {
        Some(node) => node.title.clone(),
        None => match dir.file_name() {
            Some(name) => name,
            None => "".to_owned(),
        },
    }
}

// ---------------------------------------------------------------------
// The order of nodes
// ---------------------------------------------------------------------

/// Whether a file name starts with an org-roam timestamp: fourteen digits and
/// a hyphen, with something behind them.
pub open spec fn has_timestamp(name: Seq<char>) -> bool {
    &&& name.len() > 15
    &&& name[14] == '-'
    &&& forall|i: int| 0 <= i < 14 ==> '0' <= #[trigger] name[i] <= '9'
}

/// The name that a node is ordered by: that of its file, without a timestamp.
pub open spec fn sort_name(n: NodeView) -> Seq<char> {
    match path::name_of(n.file_path) {
        None => ""@,
        Some(name) => if has_timestamp(name) {
            name.skip(15)
        } else {
            name
        },
    }
}

/// The name that a node is ordered by.
pub fn sortable_file_name(node: &Node) -> (r: String)
    ensures
        r@ == sort_name(node.deep_view()),
{
    match node.file_path.file_name() {
        None => "".to_owned(),
        Some(name) => {
            let cs: Vec<char> = text::chars_of(name.as_str());
            if cs.len() > 15 && cs[14] == '-' {
                let mut i: usize = 0;
                while i < 14 && '0' <= cs[i] && cs[i] <= '9'
                    invariant
                        i <= 14,
                        cs@.len() > 15,
                        cs@ == name@,
                        forall|j: int| 0 <= j < i ==> '0' <= #[trigger] name@[j] <= '9',
                    decreases 14 - i,
                {
                    i = i + 1;
                }
                if i == 14 {
                    return text::skip_chars(name.as_str(), 15);
                }
                assert(!has_timestamp(name@)) by {
                    assert(name@[i as int] == cs@[i as int]);
                }
            }
            name
        },
    }
}

/// What a node is ordered by: its directory, whether it is the index node, its
/// name, and its position in the vault.
pub struct NodeKey {
    pub dir: VaultPath,
    pub rest: bool,
    pub name: String,
    pub index: usize,
}

/// The model of a node key.
pub struct NodeKeyView {
    pub dir: PathView,
    pub rest: bool,
    pub name: Seq<char>,
    pub index: int,
}

impl DeepView for NodeKey {
    type V = NodeKeyView;

    open spec fn deep_view(&self) -> NodeKeyView {
        NodeKeyView {
            dir: self.dir.deep_view(),
            rest: self.rest,
            name: self.name@,
            index: self.index as int,
        }
    }
}

impl Ordered for NodeKey {
    open spec fn before(a: NodeKeyView, b: NodeKeyView) -> bool {
        if a.dir != b.dir {
            path::path_before(a.dir, b.dir)
        } else if a.rest != b.rest {
            b.rest
        } else if a.name != b.name {
            text::text_before(a.name, b.name)
        } else {
            a.index < b.index
        }
    }

    proof fn lemma_total_order(a: NodeKeyView, b: NodeKeyView, c: NodeKeyView) {
        path::lemma_path_order(a.dir, b.dir, c.dir);
        path::lemma_path_order(b.dir, a.dir, c.dir);
        path::lemma_path_order(c.dir, b.dir, a.dir);
        text::lemma_text_before_total(a.name, b.name);
        if text::text_before(a.name, b.name) && text::text_before(b.name, c.name) {
            text::lemma_text_before_transitive(a.name, b.name, c.name);
        }
        text::lemma_text_before_irreflexive(a.name);
        if Self::before(a, b) && Self::before(b, c) {
            if a.dir != b.dir && b.dir != c.dir {
                assert(path::path_before(a.dir, c.dir));
                assert(a.dir != c.dir);
            }
        }
    }

    fn precedes(&self, other: &NodeKey) -> (r: bool) {
        if !self.dir.same(&other.dir) {
            self.dir.is_before(&other.dir)
        } else if self.rest != other.rest {
            other.rest
        } else if !text::same_text(self.name.as_str(), other.name.as_str()) {
            text::is_text_before(self.name.as_str(), other.name.as_str())
        } else {
            self.index < other.index
        }
    }
}

/// What the `i`th node is ordered by.
pub open spec fn key_of(v: VaultView, root: PathView, i: int) -> NodeKeyView {
    let n = v.nodes[i];
    NodeKeyView {
        dir: dir_of(n, root),
        rest: placed(v, root, n) != Placement::Index,
        name: sort_name(n),
        index: i,
    }
}

/// What the nodes are ordered by, in the order of the vault.
pub open spec fn node_keys(v: VaultView, root: PathView) -> Seq<NodeKeyView> {
    Seq::new(v.nodes.len(), |i: int| key_of(v, root, i))
}

/// The positions of the nodes in the order in which they are shown: directory
/// by directory, the index node first and the others by name.
pub open spec fn display_order(v: VaultView, root: PathView) -> Seq<int> {
    order::sorted::<NodeKey>(node_keys(v, root)).map_values(|k: NodeKeyView| k.index)
}

/// The positions of the nodes in the order in which they are shown.
pub fn sorted_nodes(v: &Vault, vault_dir: &VaultPath) -> (r: Vec<usize>)
    ensures
        r@.map_values(|i: usize| i as int) == display_order(v.deep_view(), vault_dir.deep_view()),
        forall|k: int| 0 <= k < r@.len() ==> #[trigger] r@[k] < v.nodes@.len(),
{
    let ghost vv = v.deep_view();
    let ghost root = vault_dir.deep_view();
    let mut keys: Vec<NodeKey> = Vec::new();
    let mut i: usize = 0;
    while i < v.nodes.len()
        invariant
            vv == v.deep_view(),
            root == vault_dir.deep_view(),
            i <= v.nodes@.len(),
            keys.deep_view() == node_keys(vv, root).take(i as int),
        decreases v.nodes.len() - i,
    {
        let ghost before = keys.deep_view();
        assert(vv.nodes[i as int] == v.nodes[i as int].deep_view());
        let rest: bool = match placement(v, vault_dir, &v.nodes[i]) {
            Placement::Index => false,
            _ => true,
        };
        let key: NodeKey = NodeKey {
            dir: node_dir(&v.nodes[i], vault_dir),
            rest,
            name: sortable_file_name(&v.nodes[i]),
            index: i,
        };
        keys.push(key);
        assert(keys.deep_view() =~= before.push(key.deep_view()));
        assert(key.deep_view() == key_of(vv, root, i as int));
        i = i + 1;
    }
    assert(keys.deep_view() =~= node_keys(vv, root));
    let ghost ks = keys.deep_view();
    let keys: Vec<NodeKey> = order::sort(keys);
    let ghost sorted = keys.deep_view();
    proof {
        order::lemma_sorted::<NodeKey>(ks);
    }
    let mut out: Vec<usize> = Vec::new();
    let mut k: usize = 0;
    while k < keys.len()
        invariant
            vv == v.deep_view(),
            ks == node_keys(vv, root),
            sorted == keys.deep_view(),
            sorted == order::sorted::<NodeKey>(ks),
            forall|x: NodeKeyView| #[trigger] sorted.contains(x) <==> ks.contains(x),
            k <= keys@.len(),
            out@.map_values(|i: usize| i as int) == display_order(vv, root).take(k as int),
            forall|j: int| 0 <= j < out@.len() ==> #[trigger] out@[j] < v.nodes@.len(),
        decreases keys.len() - k,
    {
        let ghost before = out@.map_values(|i: usize| i as int);
        proof {
            let x = sorted[k as int];
            assert(x == keys[k as int].deep_view());
            assert(sorted.contains(x));
            assert(ks.contains(x));
            let j = choose|j: int| 0 <= j < ks.len() && ks[j] == x;
            assert(x.index == j);
        }
        out.push(keys[k].index);
        assert(out@.map_values(|i: usize| i as int) =~= before.push(sorted[k as int].index));
        k = k + 1;
    }
    assert(display_order(vv, root).take(k as int) =~= display_order(vv, root));
    out
}

// ---------------------------------------------------------------------
// Directories
// ---------------------------------------------------------------------

/// The directories of the first `k` nodes and those above them.
pub open spec fn chains(v: VaultView, root: PathView, k: int) -> Seq<PathView>
    decreases k,
{
    if k <= 0 {
        Seq::<PathView>::empty()
    } else {
        chains(v, root, k - 1) + path::chain(dir_of(v.nodes[k - 1], root))
    }
}

/// The directories that get a page, in order: those that hold a node, and
/// those above them.
pub open spec fn directories(v: VaultView, root: PathView) -> Seq<PathView> {
    order::path_set(chains(v, root, v.nodes.len() as int))
}

/// The directories that get a page.
pub fn page_directories(v: &Vault, vault_dir: &VaultPath) -> (r: Vec<VaultPath>)
    ensures
        r.deep_view() == directories(v.deep_view(), vault_dir.deep_view()),
{
    let ghost vv = v.deep_view();
    let ghost root = vault_dir.deep_view();
    let mut all: Vec<VaultPath> = Vec::new();
    let mut i: usize = 0;
    assert(all.deep_view() =~= chains(vv, root, 0));
    while i < v.nodes.len()
        invariant
            vv == v.deep_view(),
            root == vault_dir.deep_view(),
            i <= v.nodes@.len(),
            all.deep_view() == chains(vv, root, i as int),
        decreases v.nodes.len() - i,
    {
        let ghost before = all.deep_view();
        assert(vv.nodes[i as int] == v.nodes[i as int].deep_view());
        let mut above: Vec<VaultPath> = node_dir(
            &v.nodes[i],
            vault_dir,
        ).ancestors_shallowest_first();
        let ghost new = above.deep_view();
        all.append(&mut above);
        assert(all.deep_view() =~= before + new);
        i = i + 1;
    }
    order::sorted_path_set(all)
}

// ---------------------------------------------------------------------
// The planned tree
// ---------------------------------------------------------------------

/// The number of components of a path, the root included.
pub open spec fn depth(p: PathView) -> nat {
    if p.absolute {
        p.parts.len() + 1
    } else {
        p.parts.len()
    }
}

/// The line of a directory.
pub open spec fn dir_line(v: VaultView, dir: PathView) -> Seq<char> {
    let flat = match vault::index_for(v, dir) {
        Some(index) => index.flat,
        None => false,
    };
    text::indent(depth(dir)) + "- "@ + dir_title(v, dir) + "/"@ + (if flat {
        " (flat)"@
    } else {
        ""@
    })
}

/// The line of a node.
pub open spec fn node_line(n: NodeView, root: PathView) -> Seq<char> {
    text::indent(depth(dir_of(n, root)) + 1) + "- "@ + n.title + " ("@ + n.id + ", "@
        + text::decimal(n.blocks.len()) + " block(s), "@ + text::decimal(n.links.len())
        + " link(s))"@
}

/// The lines of those of `dirs` that are not among `seen`.
pub open spec fn dir_lines(v: VaultView, dirs: Seq<PathView>, seen: Seq<PathView>) -> Seq<Seq<char>>
    decreases dirs.len(),
{
    if dirs.len() == 0 {
        Seq::<Seq<char>>::empty()
    } else {
        let head = dir_lines(v, dirs.drop_last(), seen);
        if seen.contains(dirs.last()) {
            head
        } else {
            head.push(dir_line(v, dirs.last()))
        }
    }
}

/// The lines of the first `k` nodes: each after the lines of those of its
/// directories that have none yet.
pub open spec fn tree_lines(v: VaultView, root: PathView, k: int) -> Seq<Seq<char>>
    decreases k,
{
    if k <= 0 {
        Seq::<Seq<char>>::empty()
    } else {
        let n = v.nodes[k - 1];
        (tree_lines(v, root, k - 1) + dir_lines(
            v,
            path::chain(dir_of(n, root)),
            chains(v, root, k - 1),
        )).push(node_line(n, root))
    }
}

fn holds_path(v: &Vec<VaultPath>, p: &VaultPath) -> (r: bool)
    ensures
        r == v.deep_view().contains(p.deep_view()),
{
    let mut i: usize = 0;
    while i < v.len()
        invariant
            i <= v@.len(),
            forall|j: int| 0 <= j < i ==> #[trigger] v.deep_view()[j] != p.deep_view(),
        decreases v.len() - i,
    {
        assert(v.deep_view()[i as int] == v[i as int].deep_view());
        if v[i].same(p) {
            return true;
        }
        i = i + 1;
    }
    false
}

fn path_depth(p: &VaultPath) -> (r: String)
    ensures
        r@ == text::indent(depth(p.deep_view())),
{
    let mut s: String = text::indentation(p.parts.len());
    if p.absolute {
        s.append("  ");
        proof {
            reveal_strlit("  ");
        }
        assert(s@ =~= text::indent(depth(p.deep_view())));
    }
    s
}

fn line_of_dir(v: &Vault, dir: &VaultPath) -> (r: String)
    ensures
        r@ == dir_line(v.deep_view(), dir.deep_view()),
{
    let mut s: String = path_depth(dir);
    s.append("- ");
    s.append(directory_page_title(v, dir).as_str());
    s.append("/");
    let flat: bool = match v.index_of(dir) {
        Some(index) => index.flat,
        None => false,
    };
    if flat {
        s.append(" (flat)");
    } else {
        s.append("");
    }
    s
}

fn line_of_node(node: &Node, vault_dir: &VaultPath) -> (r: String)
    ensures
        r@ == node_line(node.deep_view(), vault_dir.deep_view()),
{
    let dir: VaultPath = node_dir(node, vault_dir);
    let mut s: String = path_depth(&dir);
    s.append("  ");
    proof {
        reveal_strlit("  ");
        assert(s@ =~= text::indent(depth(dir.deep_view()) + 1));
    }
    s.append("- ");
    s.append(node.title.as_str());
    s.append(" (");
    s.append(node.id.as_str());
    s.append(", ");
    s.append(text::to_decimal(node.blocks.len()).as_str());
    s.append(" block(s), ");
    s.append(text::to_decimal(node.links.len()).as_str());
    s.append(" link(s))");
    s
}

/// The tree of pages that a vault would give, one line for each.
pub fn planned_tree(v: &Vault, vault_dir: &VaultPath) -> (r: Vec<String>)
    ensures
        r.deep_view() == tree_lines(
            v.deep_view(),
            vault_dir.deep_view(),
            v.deep_view().nodes.len() as int,
        ),
{
    let ghost vv = v.deep_view();
    let ghost root = vault_dir.deep_view();
    let mut lines: Vec<String> = Vec::new();
    let mut seen: Vec<VaultPath> = Vec::new();
    let mut i: usize = 0;
    assert(lines.deep_view() =~= tree_lines(vv, root, 0));
    while i < v.nodes.len()
        invariant
            vv == v.deep_view(),
            root == vault_dir.deep_view(),
            i <= v.nodes@.len(),
            lines.deep_view() == tree_lines(vv, root, i as int),
            same_members(seen.deep_view(), chains(vv, root, i as int)),
        decreases v.nodes.len() - i,
    {
        assert(vv.nodes[i as int] == v.nodes[i as int].deep_view());
        let above: Vec<VaultPath> = node_dir(&v.nodes[i], vault_dir).ancestors_shallowest_first();
        add_dir_lines(v, &above, &mut seen, &mut lines, Ghost(chains(vv, root, i as int)));
        let ghost before = lines.deep_view();
        let line: String = line_of_node(&v.nodes[i], vault_dir);
        lines.push(line);
        assert(lines.deep_view() =~= before.push(line@));
        i = i + 1;
    }
    lines
}

/// Whether two lists hold the same paths.
pub open spec fn same_members(a: Seq<PathView>, b: Seq<PathView>) -> bool {
    forall|p: PathView| #[trigger] a.contains(p) <==> b.contains(p)
}

fn add_dir_lines(
    v: &Vault,
    dirs: &Vec<VaultPath>,
    seen: &mut Vec<VaultPath>,
    lines: &mut Vec<String>,
    Ghost(known): Ghost<Seq<PathView>>,
)
    requires
        same_members(old(seen).deep_view(), known),
    ensures
        same_members(final(seen).deep_view(), known + dirs.deep_view()),
        final(lines).deep_view() == old(lines).deep_view() + dir_lines(
            v.deep_view(),
            dirs.deep_view(),
            known,
        ),
{
    let ghost vv = v.deep_view();
    let ghost ds = dirs.deep_view();
    let ghost start = lines.deep_view();
    let ghost held = seen.deep_view();
    let mut fresh: Vec<VaultPath> = Vec::new();
    let mut k: usize = 0;
    assert(start + dir_lines(vv, ds.take(0), known) =~= start);
    while k < dirs.len()
        invariant
            vv == v.deep_view(),
            ds == dirs.deep_view(),
            held == seen.deep_view(),
            same_members(held, known),
            k <= dirs@.len(),
            lines.deep_view() == start + dir_lines(vv, ds.take(k as int), known),
            forall|j: int|
                0 <= j < k ==> known.contains(#[trigger] ds[j]) || fresh.deep_view().contains(
                    ds[j],
                ),
            forall|j: int|
                0 <= j < fresh@.len() ==> ds.contains(#[trigger] fresh.deep_view()[j]),
        decreases dirs.len() - k,
    {
        let ghost before = lines.deep_view();
        let ghost was = fresh.deep_view();
        let ghost d = ds[k as int];
        assert(ds.take(k + 1).drop_last() =~= ds.take(k as int));
        assert(ds.take(k + 1).last() == d);
        assert(d == dirs[k as int].deep_view());
        if !holds_path(seen, &dirs[k]) {
            let line: String = line_of_dir(v, &dirs[k]);
            lines.push(line);
            assert(lines.deep_view() =~= before.push(line@));
            assert(lines.deep_view() =~= start + dir_lines(vv, ds.take(k + 1), known));
            let p: VaultPath = dirs[k].clone();
            fresh.push(p);
            proof {
                let now = fresh.deep_view();
                assert(now =~= was.push(d));
                assert(now[was.len() as int] == d);
                assert forall|j: int| 0 <= j < k + 1 implies known.contains(#[trigger] ds[j])
                    || now.contains(ds[j]) by {
                    if j < k && !known.contains(ds[j]) {
                        let m = choose|m: int| 0 <= m < was.len() && was[m] == ds[j];
                        assert(now[m] == ds[j]);
                    }
                }
                assert forall|j: int| 0 <= j < now.len() implies ds.contains(
                    #[trigger] now[j],
                ) by {
                    if j < was.len() {
                        assert(ds.contains(was[j]));
                    } else {
                        assert(ds[k as int] == now[j]);
                    }
                }
            }
        }
        k = k + 1;
    }
    assert(ds.take(k as int) =~= ds);
    let ghost new = fresh.deep_view();
    seen.append(&mut fresh);
    proof {
        let now = seen.deep_view();
        let all = known + ds;
        assert(now =~= held + new);
        assert forall|p: PathView| #[trigger] now.contains(p) <==> all.contains(p) by {
            if now.contains(p) {
                let m = choose|m: int| 0 <= m < now.len() && now[m] == p;
                if m < held.len() {
                    assert(held[m] == p);
                    assert(held.contains(p));
                    let j = choose|j: int| 0 <= j < known.len() && known[j] == p;
                    assert(all[j] == p);
                } else {
                    assert(ds.contains(new[m - held.len()]));
                    let j = choose|j: int| 0 <= j < ds.len() && ds[j] == p;
                    assert(all[known.len() + j] == p);
                }
            }
            if all.contains(p) {
                let j = choose|j: int| 0 <= j < all.len() && all[j] == p;
                if j < known.len() || known.contains(p) {
                    if j < known.len() {
                        assert(known[j] == p);
                    }
                    assert(held.contains(p));
                    let m = choose|m: int| 0 <= m < held.len() && held[m] == p;
                    assert(now[m] == p);
                } else {
                    assert(ds[j - known.len()] == p);
                    assert(new.contains(p));
                    let m = choose|m: int| 0 <= m < new.len() && new[m] == p;
                    assert(now[held.len() + m] == p);
                }
            }
        }
    }
}

// ---------------------------------------------------------------------
// Laws
// ---------------------------------------------------------------------

/// Every node is shown exactly once.
pub proof fn law_every_node_shown_once(v: VaultView, root: PathView)
    ensures
        display_order(v, root).len() == v.nodes.len(),
        display_order(v, root).no_duplicates(),
        forall|i: int| #[trigger] display_order(v, root).contains(i) <==> 0 <= i < v.nodes.len(),
{
    let keys = node_keys(v, root);
    let s = order::sorted::<NodeKey>(keys);
    let r = display_order(v, root);
    order::lemma_sorted::<NodeKey>(keys);
    assert(keys.no_duplicates()) by {
        assert forall|i: int, j: int|
            0 <= i < keys.len() && 0 <= j < keys.len() && i != j implies keys[i] != keys[j] by {
            assert(keys[i].index == i);
            assert(keys[j].index == j);
        }
    }
    keys.lemma_multiset_has_no_duplicates();
    s.lemma_multiset_has_no_duplicates_conv();
    assert forall|k: int| 0 <= k < s.len() implies 0 <= (#[trigger] s[k]).index < keys.len()
        && s[k] == keys[s[k].index] by {
        assert(s.contains(s[k]));
        assert(keys.contains(s[k]));
        let j = choose|j: int| 0 <= j < keys.len() && keys[j] == s[k];
        assert(keys[j].index == j);
    }
    assert(r.no_duplicates()) by {
        assert forall|a: int, b: int|
            0 <= a < r.len() && 0 <= b < r.len() && a != b implies r[a] != r[b] by {
            if r[a] == r[b] {
                assert(s[a] == keys[s[a].index]);
                assert(s[b] == keys[s[b].index]);
                assert(s[a] == s[b]);
            }
        }
    }
    assert forall|i: int| #[trigger] r.contains(i) <==> 0 <= i < v.nodes.len() by {
        if r.contains(i) {
            let a = choose|a: int| 0 <= a < r.len() && r[a] == i;
            assert(s[a].index == i);
        }
        if 0 <= i < v.nodes.len() {
            assert(keys.contains(keys[i]));
            assert(s.contains(keys[i]));
            let a = choose|a: int| 0 <= a < s.len() && s[a] == keys[i];
            assert(r[a] == i);
        }
    }
}

/// Nodes are shown directory by directory; within a directory the index node
/// comes first, and the others by their names.
pub proof fn law_display_order(v: VaultView, root: PathView, a: int, b: int)
    requires
        0 <= a < b < v.nodes.len(),
    ensures
        ({
            let x = v.nodes[display_order(v, root)[a]];
            let y = v.nodes[display_order(v, root)[b]];
            &&& !path::path_before(dir_of(y, root), dir_of(x, root))
            &&& dir_of(x, root) == dir_of(y, root) ==> {
                &&& placed(v, root, y) == Placement::Index ==> placed(v, root, x)
                    == Placement::Index
                &&& (placed(v, root, x) == Placement::Index) == (placed(v, root, y)
                    == Placement::Index) ==> !text::text_before(sort_name(y), sort_name(x))
            }
        }),
{
    let keys = node_keys(v, root);
    let s = order::sorted::<NodeKey>(keys);
    order::lemma_sorted::<NodeKey>(keys);
    let (p, q) = (s[a], s[b]);
    assert(s.contains(p) && s.contains(q));
    assert(keys.contains(p) && keys.contains(q));
    let i = choose|i: int| 0 <= i < keys.len() && keys[i] == p;
    let j = choose|j: int| 0 <= j < keys.len() && keys[j] == q;
    assert(display_order(v, root)[a] == i);
    assert(display_order(v, root)[b] == j);
    assert(!NodeKey::before(q, p));
    path::lemma_path_order(p.dir, p.dir, p.dir);
    text::lemma_text_before_irreflexive(p.name);
}

/// The directories that get a page are exactly those that hold a node and
/// those above them; each comes once, and they come in order.
pub proof fn law_directories(v: VaultView, root: PathView)
    ensures
        order::strictly_ordered(directories(v, root)),
        forall|d: PathView| #[trigger]
            directories(v, root).contains(d) <==> exists|i: int|
                0 <= i < v.nodes.len() && path::chain(dir_of(#[trigger] v.nodes[i], root)).contains(
                    d,
                ),
{
    let n = v.nodes.len() as int;
    order::lemma_path_set(chains(v, root, n));
    assert forall|d: PathView| #[trigger] directories(v, root).contains(d) <==> exists|i: int|
        0 <= i < v.nodes.len() && path::chain(dir_of(#[trigger] v.nodes[i], root)).contains(d) by {
        lemma_chains_members(v, root, n, d);
        assert(directories(v, root).contains(d) <==> chains(v, root, n).contains(d));
    }
}

proof fn lemma_chains_members(v: VaultView, root: PathView, k: int, d: PathView)
    requires
        0 <= k <= v.nodes.len(),
    ensures
        chains(v, root, k).contains(d) <==> exists|i: int|
            0 <= i < k && path::chain(dir_of(#[trigger] v.nodes[i], root)).contains(d),
    decreases k,
{
    if k > 0 {
        lemma_chains_members(v, root, k - 1, d);
        let a = chains(v, root, k - 1);
        let b = path::chain(dir_of(v.nodes[k - 1], root));
        let r = chains(v, root, k);
        if a.contains(d) {
            let m = choose|m: int| 0 <= m < a.len() && a[m] == d;
            assert(r[m] == d);
        }
        if b.contains(d) {
            let m = choose|m: int| 0 <= m < b.len() && b[m] == d;
            assert(r[a.len() + m] == d);
        }
        if r.contains(d) {
            let m = choose|m: int| 0 <= m < r.len() && r[m] == d;
            if m < a.len() {
                assert(a[m] == d);
            } else {
                assert(b[m - a.len()] == d);
            }
        }
    }
}

} // verus!
