//! What a scan makes of the files of a vault, said of the files themselves.

use crate::laws::paths;
use crate::order;
use crate::org;
use crate::org_parser;
use crate::org_parser::NodeView;
use crate::path;
use crate::path::PathView;
use crate::ports::FsErrorView;
use crate::text;
use crate::text::Separator;
use crate::laws::texts;
use crate::vault;
use crate::vault::{DirIndexView, MarkerReply, ProblemView, VaultErrorView, VaultView};
use vstd::prelude::*;

verus! {

// ---------------------------------------------------------------------
// Index files
// ---------------------------------------------------------------------

/// Whether a line holds no equals sign.
pub open spec fn names_a_file(line: Seq<char>) -> bool {
    forall|i: int| 0 <= i < line.len() ==> #[trigger] line[i] != '='
}

/// Whether the first equals sign of a line stands at `i`.
pub open spec fn sets_at(line: Seq<char>, i: int) -> bool {
    &&& 0 <= i < line.len()
    &&& line[i] == '='
    &&& forall|j: int| 0 <= j < i ==> #[trigger] line[j] != '='
}

proof fn lemma_equals_sign(line: Seq<char>)
    ensures
        match vault::equals_sign(line) {
            Some(i) => sets_at(line, i) && !names_a_file(line),
            None => names_a_file(line),
        },
        forall|i: int| #[trigger] sets_at(line, i) ==> vault::equals_sign(line) == Some(i),
{
    reveal_strlit("=");
    texts::law_find(line, "="@, 0);
    assert forall|j: int| #[trigger] texts::stands_at(line, "="@, j) <==> 0 <= j < line.len()
        && line[j] == '=' by {
        if texts::stands_at(line, "="@, j) {
            assert("="@[0] == line[j + 0]);
        }
    }
    match vault::equals_sign(line) {
        Some(i) => {
            assert forall|j: int| 0 <= j < i implies #[trigger] line[j] != '=' by {
                assert(!texts::stands_at(line, "="@, j));
            }
            assert(line[i] == '=');
        },
        None => {
            assert forall|j: int| 0 <= j < line.len() implies #[trigger] line[j] != '=' by {
                assert(!texts::stands_at(line, "="@, j));
            }
        },
    }
    assert forall|i: int| #[trigger] sets_at(line, i) implies vault::equals_sign(line) == Some(
        i,
    ) by {
        assert(texts::stands_at(line, "="@, i));
        match vault::equals_sign(line) {
            Some(k) => {
                assert(line[k] == '=');
                if k < i {
                    assert(line[k] != '=');
                }
                if i < k {
                    assert(!texts::stands_at(line, "="@, i));
                }
            },
            None => {},
        }
    }
}

/// What a line of an index file says, given what the lines before it have said:
/// a line without an equals sign is the file, and may come once; any other sets
/// what stands before its first equals sign to what stands behind it, and only
/// `flat` can be set, once, to `true` or `false`.
pub proof fn law_index_line(
    file: Option<Seq<char>>,
    flat: Option<bool>,
    line: Seq<char>,
    i: int,
)
    ensures
        names_a_file(line) && file is None ==> vault::with_line((file, flat), line) == Ok::<
            (Option<Seq<char>>, Option<bool>),
            ProblemView,
        >((Some(line), flat)),
        names_a_file(line) && file is Some ==> vault::with_line((file, flat), line) == Err::<
            (Option<Seq<char>>, Option<bool>),
            ProblemView,
        >(ProblemView::RepeatedFile),
        sets_at(line, i) ==> ({
            let key = text::trim(line.take(i));
            let value = text::trim(line.skip(i + 1));
            let r = vault::with_line((file, flat), line);
            let fails = |p: ProblemView|
                r == Err::<(Option<Seq<char>>, Option<bool>), ProblemView>(p);
            let sets = |b: bool|
                r == Ok::<(Option<Seq<char>>, Option<bool>), ProblemView>((file, Some(b)));
            &&& key != "flat"@ ==> fails(ProblemView::UnknownOption { key })
            &&& key == "flat"@ && flat is Some ==> fails(ProblemView::RepeatedFlat)
            &&& key == "flat"@ && flat is None && value == "true"@ ==> sets(true)
            &&& key == "flat"@ && flat is None && value == "false"@ ==> sets(false)
            &&& key == "flat"@ && flat is None && value != "true"@ && value != "false"@ ==> fails(
                ProblemView::BadFlat { value },
            )
        }),
{
    lemma_equals_sign(line);
    reveal_strlit("true");
    reveal_strlit("false");
    assert("true"@.len() != "false"@.len());
}

/// The lines of an index file that are more than white space are read in order,
/// up to the first that is wrong; both the file and the layout must be given.
pub proof fn law_index_file(lines: Seq<Seq<char>>, line: Seq<char>, s: Seq<char>)
    ensures
        vault::with_lines(Seq::<Seq<char>>::empty()) == Ok::<
            (Option<Seq<char>>, Option<bool>),
            ProblemView,
        >((None, None)),
        vault::with_lines(lines) is Err ==> vault::with_lines(lines.push(line))
            == vault::with_lines(lines),
        vault::with_lines(lines) is Ok ==> vault::with_lines(lines.push(line)) == vault::with_line(
            vault::with_lines(lines)->Ok_0,
            line,
        ),
        ({
            let said = vault::with_lines(text::nonblank_trimmed(text::split_by(s, Separator::Line)));
            let r = vault::parsed_index(s);
            match said {
                Err(p) => r == Err::<(Seq<char>, bool), ProblemView>(p),
                Ok((file, flat)) => {
                    &&& file is None ==> r == Err::<(Seq<char>, bool), ProblemView>(
                        ProblemView::MissingFile,
                    )
                    &&& file is Some && flat is None ==> r == Err::<(Seq<char>, bool), ProblemView>(
                        ProblemView::MissingFlat,
                    )
                    &&& file is Some && flat is Some ==> r == Ok::<(Seq<char>, bool), ProblemView>(
                        (file->0, flat->0),
                    )
                },
            }
        }),
{
    assert(lines.push(line).drop_last() =~= lines);
}

/// An index file is well-formed exactly if it has two lines that are more than
/// white space, in either order: one without an equals sign, which is the file,
/// and one that sets `flat`.
pub proof fn law_index_is_two_lines(s: Seq<char>, file: Seq<char>, flat: bool)
    ensures
        vault::parsed_index(s) == Ok::<(Seq<char>, bool), ProblemView>((file, flat)) <==> ({
            let lines = text::nonblank_trimmed(text::split_by(s, Separator::Line));
            &&& lines.len() == 2
            &&& {
                ||| lines[0] == file && names_a_file(file) && sets_flat(lines[1], flat)
                ||| lines[1] == file && names_a_file(file) && sets_flat(lines[0], flat)
            }
        }),
{
    vault::law_index_lines(s, file, flat);
    let lines = text::nonblank_trimmed(text::split_by(s, Separator::Line));
    assert forall|x: Seq<char>|
        #![trigger vault::is_flat_line(x, flat)]
        #![trigger sets_flat(x, flat)]
        vault::is_flat_line(x, flat) <==> sets_flat(x, flat) by {
        lemma_equals_sign(x);
    }
    lemma_equals_sign(file);
}

/// Whether a line sets `flat` to a value.
pub open spec fn sets_flat(line: Seq<char>, flat: bool) -> bool {
    exists|i: int| #[trigger]
        sets_at(line, i) && text::trim(line.take(i)) == "flat"@ && text::trim(line.skip(i + 1))
            == (if flat {
            "true"@
        } else {
            "false"@
        })
}

// ---------------------------------------------------------------------
// Nodes
// ---------------------------------------------------------------------

/// Whether the `k`th node is the first with the ID.
pub open spec fn first_with_id(nodes: Seq<NodeView>, id: Seq<char>, k: int) -> bool {
    &&& 0 <= k < nodes.len()
    &&& nodes[k].id == id
    &&& forall|j: int| 0 <= j < k ==> (#[trigger] nodes[j]).id != id
}

proof fn lemma_with_id(nodes: Seq<NodeView>, id: Seq<char>)
    ensures
        (forall|j: int| 0 <= j < nodes.len() ==> (#[trigger] nodes[j]).id != id) ==> vault::with_id(
            nodes,
            id,
        ) is None,
        forall|k: int| #[trigger]
            first_with_id(nodes, id, k) ==> vault::with_id(nodes, id) == Some(nodes[k]),
    decreases nodes.len(),
{
    if nodes.len() > 0 {
        let t = nodes.drop_first();
        lemma_with_id(t, id);
        assert(nodes[0] == nodes.first());
        if forall|j: int| 0 <= j < nodes.len() ==> (#[trigger] nodes[j]).id != id {
            assert forall|j: int| 0 <= j < t.len() implies (#[trigger] t[j]).id != id by {
                assert(t[j] == nodes[j + 1]);
            }
        }
        assert forall|k: int| #[trigger] first_with_id(nodes, id, k) implies vault::with_id(
            nodes,
            id,
        ) == Some(nodes[k]) by {
            if k > 0 {
                assert(t[k - 1] == nodes[k]);
                assert forall|j: int| 0 <= j < k - 1 implies (#[trigger] t[j]).id != id by {
                    assert(t[j] == nodes[j + 1]);
                }
                assert(first_with_id(t, id, k - 1));
            }
        }
    }
}

/// A file that was read adds its node behind the others. It fails the scan where
/// it could not be read, is too long, or holds no ID; and where a node before it
/// has the same ID, which names both files.
pub proof fn law_file_adds_its_node(
    nodes: Seq<NodeView>,
    p: PathView,
    e: FsErrorView,
    s: Seq<char>,
    k: int,
)
    ensures
        ({
            let read = Ok::<Seq<char>, FsErrorView>(s);
            let r = vault::with_file(nodes, p, read);
            let n = org_parser::node_of(p, org::document_of(s));
            let bytes = vstd::utf8::encode_utf8(s).len();
            let fails = |x: VaultErrorView| r == Err::<Seq<NodeView>, VaultErrorView>(x);
            &&& vault::with_file(nodes, p, Err(e)) == Err::<Seq<NodeView>, VaultErrorView>(
                VaultErrorView::Fs(e),
            )
            &&& bytes > 4294967295 ==> fails(VaultErrorView::TooLong(p))
            &&& bytes <= 4294967295 && n is None ==> fails(VaultErrorView::MissingId(p))
            &&& bytes <= 4294967295 && n is Some && first_with_id(nodes, (n->0).id, k) ==> fails(
                VaultErrorView::DuplicateId {
                    id: (n->0).id,
                    first: path::display(nodes[k].file_path),
                    second: path::display(p),
                },
            )
            &&& bytes <= 4294967295 && n is Some && (forall|j: int|
                0 <= j < nodes.len() ==> (#[trigger] nodes[j]).id != (n->0).id) ==> r == Ok::<
                Seq<NodeView>,
                VaultErrorView,
            >(nodes.push(n->0))
        }),
{
    match org_parser::node_of(p, org::document_of(s)) {
        Some(n) => lemma_with_id(nodes, n.id),
        None => {},
    }
}

/// Files are read one after another, in order, and nothing is made of those
/// behind one that fails.
pub proof fn law_files_are_read_in_turn(
    paths: Seq<PathView>,
    replies: Seq<Result<Seq<char>, FsErrorView>>,
    reply: Result<Seq<char>, FsErrorView>,
)
    ensures
        vault::with_files(paths, Seq::<Result<Seq<char>, FsErrorView>>::empty()) == Ok::<
            Seq<NodeView>,
            VaultErrorView,
        >(Seq::<NodeView>::empty()),
        vault::with_files(paths, replies) is Err ==> vault::with_files(paths, replies.push(reply))
            == vault::with_files(paths, replies),
        vault::with_files(paths, replies) is Ok ==> vault::with_files(paths, replies.push(reply))
            == vault::with_file(
            vault::with_files(paths, replies)->Ok_0,
            paths[replies.len() as int],
            reply,
        ),
{
    assert(replies.push(reply).drop_last() =~= replies);
}

// ---------------------------------------------------------------------
// Directories
// ---------------------------------------------------------------------

/// The index file of a directory is the file `.INDEX` in it.
pub proof fn law_index_file_path(dir: PathView)
    ensures
        vault::marker_of(dir).absolute == dir.absolute,
        vault::marker_of(dir).parts == dir.parts.push(".INDEX"@),
{
}

/// A directory without an index file has no index. With one, the file that it
/// names must be that of a node, directly in the directory; the index is then
/// that of the directory, by its path below the vault.
pub proof fn law_directory_index(
    indexes: Seq<DirIndexView>,
    nodes: Seq<NodeView>,
    vault_dir: PathView,
    dir: PathView,
    e: FsErrorView,
    s: Seq<char>,
)
    ensures
        ({
            let r = vault::with_dir(indexes, nodes, vault_dir, dir, MarkerReply::Read(Ok(s)));
            let at = PathView { absolute: dir.absolute, parts: dir.parts.push(".INDEX"@) };
            let fails = |p: ProblemView|
                r == Err::<Seq<DirIndexView>, VaultErrorView>(
                    VaultErrorView::InvalidIndex { path: at, problem: p },
                );
            &&& vault::with_dir(indexes, nodes, vault_dir, dir, MarkerReply::Absent) == Ok::<
                Seq<DirIndexView>,
                VaultErrorView,
            >(indexes)
            &&& vault::with_dir(indexes, nodes, vault_dir, dir, MarkerReply::Read(Err(e)))
                == Err::<Seq<DirIndexView>, VaultErrorView>(VaultErrorView::Fs(e))
            &&& match vault::parsed_index(s) {
                Err(p) => fails(p),
                Ok((name, flat)) => {
                    let file = PathView { absolute: dir.absolute, parts: dir.parts.push(name) };
                    if exists|i: int|
                        0 <= i < nodes.len() && (#[trigger] nodes[i]).file_path == file {
                        r == Ok::<Seq<DirIndexView>, VaultErrorView>(
                            indexes.push(
                                DirIndexView { dir: vault::below(dir, vault_dir), file, flat },
                            ),
                        )
                    } else {
                        fails(ProblemView::NotANode { name })
                    }
                },
            }
        }),
{
    match vault::parsed_index(s) {
        Err(_) => {},
        Ok((name, flat)) => {
            let file = PathView { absolute: dir.absolute, parts: dir.parts.push(name) };
            assert(file == path::joined(dir, name));
            if exists|i: int| 0 <= i < nodes.len() && (#[trigger] nodes[i]).file_path == file {
                let i = choose|i: int| 0 <= i < nodes.len() && (#[trigger] nodes[i]).file_path == file;
                assert(nodes[i].file_path == file);
                assert(vault::has_file(nodes, file));
            }
            if vault::has_file(nodes, file) {
                let i = choose|i: int|
                    0 <= i < nodes.len() && #[trigger] nodes[i].file_path == file;
                let n = nodes[i];
                assert(n.file_path == file);
            }
        },
    }
}

/// Directories are looked at one after another, and nothing is made of those
/// behind one that fails.
pub proof fn law_directories_in_turn(
    nodes: Seq<NodeView>,
    vault_dir: PathView,
    dirs: Seq<PathView>,
    replies: Seq<MarkerReply>,
    reply: MarkerReply,
)
    ensures
        vault::with_dirs(nodes, vault_dir, dirs, Seq::<MarkerReply>::empty()) == Ok::<
            Seq<DirIndexView>,
            VaultErrorView,
        >(Seq::<DirIndexView>::empty()),
        vault::with_dirs(nodes, vault_dir, dirs, replies) is Err ==> vault::with_dirs(
            nodes,
            vault_dir,
            dirs,
            replies.push(reply),
        ) == vault::with_dirs(nodes, vault_dir, dirs, replies),
        vault::with_dirs(nodes, vault_dir, dirs, replies) is Ok ==> vault::with_dirs(
            nodes,
            vault_dir,
            dirs,
            replies.push(reply),
        ) == vault::with_dir(
            vault::with_dirs(nodes, vault_dir, dirs, replies)->Ok_0,
            nodes,
            vault_dir,
            dirs[replies.len() as int],
            reply,
        ),
{
    assert(replies.push(reply).drop_last() =~= replies);
}

proof fn lemma_parents(paths: Seq<PathView>, d: PathView)
    ensures
        vault::parents(paths).contains(d) <==> exists|i: int|
            0 <= i < paths.len() && path::parent_of(#[trigger] paths[i]) == Some(d),
    decreases paths.len(),
{
    if paths.len() > 0 {
        let h = paths.drop_last();
        let f = vault::parents(h);
        let r = vault::parents(paths);
        lemma_parents(h, d);
        if f.contains(d) {
            let i = choose|i: int|
                0 <= i < h.len() && path::parent_of(#[trigger] h[i]) == Some(d);
            assert(paths[i] == h[i]);
            let m = choose|m: int| 0 <= m < f.len() && f[m] == d;
            assert(r[m] == d);
        }
        if path::parent_of(paths.last()) == Some(d) {
            assert(r[r.len() - 1] == d);
            assert(paths[paths.len() - 1] == paths.last());
        }
        if r.contains(d) && !f.contains(d) {
            let m = choose|m: int| 0 <= m < r.len() && r[m] == d;
            if m < f.len() {
                assert(f[m] == d);
            }
            assert(paths[paths.len() - 1] == paths.last());
        }
        if exists|i: int| 0 <= i < paths.len() && path::parent_of(#[trigger] paths[i]) == Some(d) {
            let i = choose|i: int|
                0 <= i < paths.len() && path::parent_of(#[trigger] paths[i]) == Some(d);
            if i < h.len() {
                assert(h[i] == paths[i]);
            }
        }
    }
}

/// The directories that are looked at are exactly those that hold a file, each
/// once and in order.
pub proof fn law_directories_of_files(paths: Seq<PathView>, d: PathView)
    ensures
        order::strictly_ordered(vault::file_dirs(paths)),
        vault::file_dirs(paths).contains(d) <==> exists|i: int|
            0 <= i < paths.len() && (#[trigger] paths[i]).parts.len() > 0 && d == (PathView {
                absolute: paths[i].absolute,
                parts: paths[i].parts.drop_last(),
            }),
{
    let sorted = vault::in_order(paths);
    order::lemma_sorted::<path::VaultPath>(paths);
    order::lemma_path_set(vault::parents(sorted));
    lemma_parents(sorted, d);
    let dirs = vault::file_dirs(paths);
    assert(dirs.contains(d) <==> vault::parents(sorted).contains(d));
    if dirs.contains(d) {
        let i = choose|i: int|
            0 <= i < sorted.len() && path::parent_of(#[trigger] sorted[i]) == Some(d);
        let x = sorted[i];
        assert(sorted.contains(x));
        assert(paths.contains(x));
        let j = choose|j: int| 0 <= j < paths.len() && paths[j] == x;
        assert(paths[j].parts.len() > 0);
    }
    if exists|i: int|
        0 <= i < paths.len() && (#[trigger] paths[i]).parts.len() > 0 && d == (PathView {
            absolute: paths[i].absolute,
            parts: paths[i].parts.drop_last(),
        }) {
        let i = choose|i: int|
            0 <= i < paths.len() && (#[trigger] paths[i]).parts.len() > 0 && d == (PathView {
                absolute: paths[i].absolute,
                parts: paths[i].parts.drop_last(),
            });
        let x = paths[i];
        assert(paths.contains(x));
        assert(sorted.contains(x));
        let j = choose|j: int| 0 <= j < sorted.len() && sorted[j] == x;
        assert(path::parent_of(sorted[j]) == Some(d));
    }
}

/// A scan that got its replies gives the nodes of its files, read in order, and
/// the indexes of its directories; or the first failure: of the listing, of a
/// file, of a directory.
pub proof fn law_scan_result(
    vault_dir: PathView,
    e: FsErrorView,
    paths: Seq<PathView>,
    files: Seq<Result<Seq<char>, FsErrorView>>,
    markers: Seq<MarkerReply>,
)
    ensures
        vault::scan_spec(vault_dir, Err(e), files, markers) == Err::<VaultView, VaultErrorView>(
            VaultErrorView::Fs(e),
        ),
        match vault::with_files(vault::in_order(paths), files) {
            Err(x) => vault::scan_spec(vault_dir, Ok(paths), files, markers) == Err::<
                VaultView,
                VaultErrorView,
            >(x),
            Ok(nodes) => match vault::with_dirs(
                nodes,
                vault_dir,
                vault::file_dirs(paths),
                markers,
            ) {
                Err(x) => vault::scan_spec(vault_dir, Ok(paths), files, markers) == Err::<
                    VaultView,
                    VaultErrorView,
                >(x),
                Ok(indexes) => vault::scan_spec(vault_dir, Ok(paths), files, markers) == Ok::<
                    VaultView,
                    VaultErrorView,
                >(VaultView { nodes, indexes }),
            },
        },
{
}

/// A path below the vault is the components that follow the vault's own; any
/// other path stays as it is.
pub proof fn law_below_the_vault(root: PathView, rest: Seq<Seq<char>>, p: PathView)
    ensures
        root.parts.len() > 0 || root.absolute ==> vault::below(
            PathView { absolute: root.absolute, parts: root.parts + rest },
            root,
        ) == (PathView { absolute: false, parts: rest }),
        (forall|r: Seq<Seq<char>>|
            !(p.absolute == root.absolute && p.parts == #[trigger] (root.parts + r)))
            ==> vault::below(p, root) == p,
        root.parts.len() == 0 && !root.absolute ==> vault::below(p, root) == p,
{
    let q = PathView { absolute: root.absolute, parts: root.parts + rest };
    let r = PathView { absolute: false, parts: rest };
    paths::law_relative_path(q, root, r);
    paths::law_relative_path(p, root, r);
    match path::relative_to(p, root) {
        Some(x) => {
            paths::law_relative_path(p, root, x);
            if root.parts.len() > 0 || root.absolute {
                assert(p.parts == root.parts + x.parts);
            }
        },
        None => {},
    }
}

/// The index of a directory is the first that is said to be its own, and the
/// index node is the first whose file it names.
pub proof fn law_index_of_directory(v: VaultView, dir: PathView, k: int, m: int)
    ensures
        0 <= k < v.indexes.len() && v.indexes[k].dir == dir && (forall|j: int|
            0 <= j < k ==> (#[trigger] v.indexes[j]).dir != dir) ==> vault::index_for(v, dir)
            == Some(v.indexes[k]),
        (forall|j: int| 0 <= j < v.indexes.len() ==> (#[trigger] v.indexes[j]).dir != dir)
            ==> vault::index_for(v, dir) is None,
        vault::index_for(v, dir) is None ==> vault::index_node_of(v, dir) is None,
        vault::index_for(v, dir) is Some && 0 <= m < v.nodes.len() && v.nodes[m].file_path == (
        vault::index_for(v, dir)->0).file && (forall|j: int|
            0 <= j < m ==> (#[trigger] v.nodes[j]).file_path != (vault::index_for(
                v,
                dir,
            )->0).file) ==> vault::index_node_of(v, dir) == Some(v.nodes[m]),
{
    lemma_first_index(v.indexes, dir, k);
    if vault::index_for(v, dir) is Some {
        lemma_node_of_file(v.nodes, (vault::index_for(v, dir)->0).file, m);
    }
}

proof fn lemma_first_index(indexes: Seq<DirIndexView>, dir: PathView, k: int)
    ensures
        0 <= k < indexes.len() && indexes[k].dir == dir && (forall|j: int|
            0 <= j < k ==> (#[trigger] indexes[j]).dir != dir) ==> vault::first_index(indexes, dir)
            == Some(indexes[k]),
        (forall|j: int| 0 <= j < indexes.len() ==> (#[trigger] indexes[j]).dir != dir)
            ==> vault::first_index(indexes, dir) is None,
    decreases indexes.len(),
{
    if indexes.len() > 0 {
        let t = indexes.drop_first();
        lemma_first_index(t, dir, k - 1);
        assert(indexes[0] == indexes.first());
        assert forall|j: int| 0 <= j < t.len() implies #[trigger] t[j] == indexes[j + 1] by {}
        if indexes.first().dir != dir {
            if forall|j: int| 0 <= j < k ==> (#[trigger] indexes[j]).dir != dir {
                assert forall|j: int| 0 <= j < k - 1 && j < t.len() implies (#[trigger] t[j]).dir
                    != dir by {
                    assert(t[j] == indexes[j + 1]);
                }
            }
            if 0 < k < indexes.len() {
                assert(t[k - 1] == indexes[k]);
            }
        }
    }
}

proof fn lemma_node_of_file(nodes: Seq<NodeView>, file: PathView, k: int)
    ensures
        0 <= k < nodes.len() && nodes[k].file_path == file && (forall|j: int|
            0 <= j < k ==> (#[trigger] nodes[j]).file_path != file) ==> vault::node_of_file(
            nodes,
            file,
        ) == Some(nodes[k]),
    decreases nodes.len(),
{
    if nodes.len() > 0 {
        let t = nodes.drop_first();
        lemma_node_of_file(t, file, k - 1);
        assert(nodes[0] == nodes.first());
        assert forall|j: int| 0 <= j < t.len() implies #[trigger] t[j] == nodes[j + 1] by {}
        if nodes.first().file_path != file {
            if forall|j: int| 0 <= j < k ==> (#[trigger] nodes[j]).file_path != file {
                assert forall|j: int| 0 <= j < k - 1 && j < t.len() implies (
                #[trigger] t[j]).file_path != file by {
                    assert(t[j] == nodes[j + 1]);
                }
            }
            if 0 < k < nodes.len() {
                assert(t[k - 1] == nodes[k]);
            }
        }
    }
}

} // verus!
