//! What the operations on paths do, said of their components.

use crate::laws::texts;
use crate::order;
use crate::path;
use crate::path::{PathView, VaultPath};
use crate::text;
use crate::text::Separator;
use crate::vault;
use vstd::prelude::*;

verus! {

/// Whether a piece counts behind the first one.
pub open spec fn counts(piece: Seq<char>) -> bool {
    piece.len() > 0 && piece != "."@
}

proof fn lemma_components(pieces: Seq<Seq<char>>, n: int)
    requires
        0 < n <= pieces.len(),
    ensures
        path::components(pieces, n) == (if pieces[0].len() > 0 {
            seq![pieces[0]]
        } else {
            Seq::<Seq<char>>::empty()
        }) + pieces.subrange(1, n).filter(|p: Seq<char>| counts(p)),
    decreases n,
{
    reveal(Seq::filter);
    let pred = |p: Seq<char>| counts(p);
    let head = if pieces[0].len() > 0 {
        seq![pieces[0]]
    } else {
        Seq::<Seq<char>>::empty()
    };
    let tail = pieces.subrange(1, n);
    if n == 1 {
        assert(path::components(pieces, 0) =~= Seq::<Seq<char>>::empty());
        assert(tail.filter(pred) =~= Seq::<Seq<char>>::empty());
        assert(path::components(pieces, 1) =~= head + tail.filter(pred));
    } else {
        lemma_components(pieces, n - 1);
        assert(tail.drop_last() =~= pieces.subrange(1, n - 1));
        assert(tail.last() == pieces[n - 1]);
        assert(path::components(pieces, n) =~= head + tail.filter(pred));
    }
}

/// The components of a path are what stands between its slashes, in order: empty
/// pieces do not count, and `.` counts only where it comes first. A path that
/// starts with a slash is absolute.
pub proof fn law_path_is_parsed(s: Seq<char>)
    ensures
        ({
            let pieces = text::split_by(s, Separator::Slash);
            let first = if pieces[0].len() > 0 {
                seq![pieces[0]]
            } else {
                Seq::<Seq<char>>::empty()
            };
            &&& pieces.len() > 0
            &&& path::parsed(s).parts == first + pieces.drop_first().filter(
                |p: Seq<char>| counts(p),
            )
            &&& path::parsed(s).absolute <==> s.len() > 0 && s[0] == '/'
        }),
{
    let pieces = text::split_by(s, Separator::Slash);
    texts::law_split(s, Separator::Slash);
    lemma_components(pieces, pieces.len() as int);
    assert(pieces.subrange(1, pieces.len() as int) =~= pieces.drop_first());
}

/// A path is shown as its components with slashes between them, and a slash
/// before them where it is absolute.
pub proof fn law_path_is_shown(p: PathView)
    ensures
        p.absolute ==> path::display(p) == seq!['/'] + text::join(p.parts, seq!['/']),
        !p.absolute ==> path::display(p) == text::join(p.parts, seq!['/']),
{
    reveal_strlit("/");
    assert("/"@ =~= seq!['/']);
}

/// Adding a component and taking it away again gives the same path; the
/// component is the name, unless it is `.` or `..`. Without components there is
/// no name and nothing above.
pub proof fn law_parent_and_name(p: PathView, x: Seq<char>)
    ensures
        path::joined(p, x).absolute == p.absolute,
        path::joined(p, x).parts == p.parts.push(x),
        path::parent_of(path::joined(p, x)) == Some(p),
        x != "."@ && x != ".."@ ==> path::name_of(path::joined(p, x)) == Some(x),
        x == "."@ || x == ".."@ ==> path::name_of(path::joined(p, x)) is None,
        p.parts.len() == 0 ==> path::parent_of(p) is None && path::name_of(p) is None,
        path::empty_path().parts.len() == 0 && !path::empty_path().absolute,
{
    assert(p.parts.push(x).drop_last() =~= p.parts);
}

proof fn lemma_last_dot(name: Seq<char>, i: int)
    requires
        i < name.len(),
    ensures
        match path::last_dot(name, i) {
            Some(k) => 0 <= k <= i && name[k] == '.' && forall|j: int|
                k < j <= i ==> #[trigger] name[j] != '.',
            None => forall|j: int| 0 <= j <= i ==> #[trigger] name[j] != '.',
        },
    decreases i + 1,
{
    if i >= 0 && name[i] != '.' {
        lemma_last_dot(name, i - 1);
    }
}

/// A name with a dot behind its first character is its stem, the last dot and
/// its extension; any other name is all stem.
pub proof fn law_stem_and_extension(name: Seq<char>)
    ensures
        match path::extension(name) {
            Some(e) => {
                &&& name == path::stem(name).push('.') + e
                &&& path::stem(name).len() > 0
                &&& forall|j: int| 0 <= j < e.len() ==> #[trigger] e[j] != '.'
            },
            None => {
                &&& path::stem(name) == name
                &&& forall|j: int| 0 < j < name.len() ==> #[trigger] name[j] != '.'
            },
        },
{
    lemma_last_dot(name, name.len() - 1);
    match path::last_dot(name, name.len() - 1) {
        Some(k) => {
            if k > 0 {
                assert(name =~= name.take(k).push('.') + name.skip(k + 1));
            }
        },
        None => {},
    }
}

/// What is left of a path below another is the components that follow it; there
/// is nothing to take away where the other is empty.
pub proof fn law_relative_path(p: PathView, base: PathView, rest: PathView)
    ensures
        base.parts.len() == 0 && !base.absolute ==> path::relative_to(p, base) == Some(p),
        base.parts.len() > 0 || base.absolute ==> (path::relative_to(p, base) == Some(rest) <==> {
            &&& p.absolute == base.absolute
            &&& p.parts == base.parts + rest.parts
            &&& !rest.absolute
        }),
{
    let n = base.parts.len() as int;
    if base.parts.len() == 0 && !base.absolute {
        assert(base.parts =~= Seq::<Seq<char>>::empty());
    }
    if p.absolute == base.absolute && p.parts == base.parts + rest.parts {
        assert(p.parts.subrange(0, n) =~= base.parts);
        assert(p.parts.skip(n) =~= rest.parts);
    }
    if base.parts.is_prefix_of(p.parts) {
        assert(p.parts =~= base.parts + p.parts.skip(n));
    }
}

/// A path and those above it come from the shallowest to the path itself, each
/// one component longer than the one before; the empty relative path is left
/// out.
pub proof fn law_chain(p: PathView, i: int)
    ensures
        path::chain(p).len() == p.parts.len() + (if p.absolute {
            1int
        } else {
            0int
        }),
        0 <= i < path::chain(p).len() ==> path::chain(p)[i].absolute == p.absolute,
        0 <= i < path::chain(p).len() && p.absolute ==> path::chain(p)[i].parts == p.parts.take(i),
        0 <= i < path::chain(p).len() && !p.absolute ==> path::chain(p)[i].parts == p.parts.take(
            i + 1,
        ),
{
}

// ---------------------------------------------------------------------
// Order
// ---------------------------------------------------------------------

/// Whether one component comes before another: `.` before `..`, both before
/// names, and names as texts.
pub open spec fn component_before(a: Seq<char>, b: Seq<char>) -> bool {
    ||| a == "."@ && b != "."@
    ||| a == ".."@ && b != "."@ && b != ".."@
    ||| a != "."@ && a != ".."@ && b != "."@ && b != ".."@ && text::text_before(a, b)
}

/// Whether two lists of components agree in the first `k`, and the one comes
/// first by what follows: it ends there, or its next component comes first.
pub open spec fn parts_decided_at(a: Seq<Seq<char>>, b: Seq<Seq<char>>, k: int) -> bool {
    &&& 0 <= k <= a.len()
    &&& k < b.len()
    &&& a.take(k) == b.take(k)
    &&& k < a.len() ==> component_before(a[k], b[k])
}

proof fn lemma_component_before(a: Seq<char>, b: Seq<char>)
    ensures
        a != b ==> path::part_before(a, b) == component_before(a, b),
        !component_before(a, a),
{
    reveal_strlit(".");
    reveal_strlit("..");
    assert("."@.len() != ".."@.len());
    text::lemma_text_before_irreflexive(a);
}

proof fn lemma_parts_order(a: Seq<Seq<char>>, b: Seq<Seq<char>>)
    ensures
        path::parts_before(a, b) <==> exists|k: int| #[trigger] parts_decided_at(a, b, k),
    decreases a.len(),
{
    if a.len() > 0 && b.len() > 0 && a.first() == b.first() {
        let (x, y) = (a.drop_first(), b.drop_first());
        lemma_parts_order(x, y);
        lemma_component_before(a.first(), b.first());
        if path::parts_before(x, y) {
            let k = choose|k: int| #[trigger] parts_decided_at(x, y, k);
            assert(a.take(k + 1) =~= seq![a.first()] + x.take(k));
            assert(b.take(k + 1) =~= seq![b.first()] + y.take(k));
            assert(parts_decided_at(a, b, k + 1));
        }
        if exists|k: int| #[trigger] parts_decided_at(a, b, k) {
            let k = choose|k: int| #[trigger] parts_decided_at(a, b, k);
            assert(k > 0);
            assert(x.take(k - 1) =~= a.take(k).drop_first());
            assert(y.take(k - 1) =~= b.take(k).drop_first());
            assert(parts_decided_at(x, y, k - 1));
        }
    } else {
        if a.len() > 0 && b.len() > 0 {
            lemma_component_before(a.first(), b.first());
        }
        if path::parts_before(a, b) {
            assert(a.take(0) =~= b.take(0));
            assert(parts_decided_at(a, b, 0));
        }
        if exists|k: int| #[trigger] parts_decided_at(a, b, k) {
            let k = choose|k: int| #[trigger] parts_decided_at(a, b, k);
            if k > 0 {
                assert(a.take(k)[0] == b.take(k)[0]);
            }
        }
    }
}

/// Paths are ordered by the first component in which they differ, a path before
/// those below it; an absolute path comes before every relative one but the
/// empty one.
pub proof fn law_path_order(a: PathView, b: PathView)
    ensures
        a.absolute == b.absolute ==> (path::path_before(a, b) <==> exists|k: int| #[trigger]
            parts_decided_at(a.parts, b.parts, k)),
        a.absolute && !b.absolute ==> (path::path_before(a, b) <==> b.parts.len() > 0),
        !a.absolute && b.absolute ==> (path::path_before(a, b) <==> a.parts.len() == 0),
{
    lemma_parts_order(a.parts, b.parts);
}

/// Files are put into the order of their paths, none left out and none twice.
pub proof fn law_files_in_order(paths: Seq<PathView>)
    ensures
        vault::in_order(paths).to_multiset() == paths.to_multiset(),
        forall|i: int, j: int|
            #![trigger vault::in_order(paths)[i], vault::in_order(paths)[j]]
            0 <= i < j < vault::in_order(paths).len() ==> !path::path_before(
                vault::in_order(paths)[j],
                vault::in_order(paths)[i],
            ),
{
    order::lemma_sorted::<VaultPath>(paths);
}

} // verus!
