//! File paths as the sequence of their components.

use crate::text;
use crate::text::Separator;
use vstd::prelude::*;

verus! {

/// A path: whether it starts at the root, and the components below that.
#[derive(Debug, PartialEq, Eq)]
pub struct VaultPath {
    pub absolute: bool,
    pub parts: Vec<String>,
}

/// The model of a path.
#[verifier::ext_equal]
pub struct PathView {
    pub absolute: bool,
    pub parts: Seq<Seq<char>>,
}

impl DeepView for VaultPath {
    type V = PathView;

    open spec fn deep_view(&self) -> PathView {
        PathView { absolute: self.absolute, parts: self.parts.deep_view() }
    }
}

impl Clone for VaultPath {
    fn clone(&self) -> (r: Self)
        ensures
            r.deep_view() == self.deep_view(),
    {
        VaultPath { absolute: self.absolute, parts: text::copy_strings(&self.parts) }
    }
}

/// Whether a piece of a path's text is a component: an empty piece is none,
/// and a `.` only where the path starts with it.
pub open spec fn is_component(pieces: Seq<Seq<char>>, i: int) -> bool {
    pieces[i].len() > 0 && (pieces[i] != "."@ || i == 0)
}

/// The components among the first `n` pieces.
pub open spec fn components(pieces: Seq<Seq<char>>, n: int) -> Seq<Seq<char>>
    decreases n,
{
    if n <= 0 {
        Seq::<Seq<char>>::empty()
    } else if is_component(pieces, n - 1) {
        components(pieces, n - 1).push(pieces[n - 1])
    } else {
        components(pieces, n - 1)
    }
}

/// The path that a text with `/` between the components stands for.
pub open spec fn parsed(s: Seq<char>) -> PathView {
    let pieces = text::split_by(s, Separator::Slash);
    PathView {
        absolute: s.len() > 0 && s[0] == '/',
        parts: components(pieces, pieces.len() as int),
    }
}

/// The path as text, with `/` between the components.
pub open spec fn display(p: PathView) -> Seq<char> {
    if p.absolute {
        "/"@ + text::join(p.parts, "/"@)
    } else {
        text::join(p.parts, "/"@)
    }
}

/// The empty relative path.
pub open spec fn empty_path() -> PathView {
    PathView { absolute: false, parts: Seq::<Seq<char>>::empty() }
}

/// The path without its last component; none where it has no component.
pub open spec fn parent_of(p: PathView) -> Option<PathView> {
    if p.parts.len() == 0 {
        None
    } else {
        Some(PathView { absolute: p.absolute, parts: p.parts.drop_last() })
    }
}

/// The last component, unless it is `.` or `..`.
pub open spec fn name_of(p: PathView) -> Option<Seq<char>> {
    if p.parts.len() == 0 || p.parts.last() == ".."@ || p.parts.last() == "."@ {
        None
    } else {
        Some(p.parts.last())
    }
}

/// The position of the last dot at or before `i`.
pub open spec fn last_dot(name: Seq<char>, i: int) -> Option<int>
    decreases i + 1,
{
    if i < 0 {
        None
    } else if name[i] == '.' {
        Some(i)
    } else {
        last_dot(name, i - 1)
    }
}

/// A file name without its extension. A name whose only dot comes first has
/// none.
pub open spec fn stem(name: Seq<char>) -> Seq<char> {
    match last_dot(name, name.len() - 1) {
        Some(i) => if i == 0 {
            name
        } else {
            name.take(i)
        },
        None => name,
    }
}

/// What stands behind the last dot of a file name; none where there is no dot
/// but a leading one.
pub open spec fn extension(name: Seq<char>) -> Option<Seq<char>> {
    match last_dot(name, name.len() - 1) {
        Some(i) => if i == 0 {
            None
        } else {
            Some(name.skip(i + 1))
        },
        None => None,
    }
}

/// The path with one more component.
pub open spec fn joined(p: PathView, part: Seq<char>) -> PathView {
    PathView { absolute: p.absolute, parts: p.parts.push(part) }
}

/// What is left of `p` below `base`; none where `p` is not below `base`.
pub open spec fn relative_to(p: PathView, base: PathView) -> Option<PathView> {
    if base == empty_path() {
        Some(p)
    } else if p.absolute == base.absolute && base.parts.is_prefix_of(p.parts) {
        Some(
            PathView { absolute: false, parts: p.parts.skip(base.parts.len() as int) },
        )
    } else {
        None
    }
}

/// The rank of a component: `.`, then `..`, then every name.
pub open spec fn rank(part: Seq<char>) -> int {
    if part == "."@ {
        0
    } else if part == ".."@ {
        1
    } else {
        2
    }
}

/// The order of components: by rank, then by their text.
pub open spec fn part_before(a: Seq<char>, b: Seq<char>) -> bool {
    rank(a) < rank(b) || (rank(a) == rank(b) && text::text_before(a, b))
}

/// The order of component lists, a proper prefix coming first.
pub open spec fn parts_before(a: Seq<Seq<char>>, b: Seq<Seq<char>>) -> bool
    decreases a.len(),
{
    if b.len() == 0 {
        false
    } else if a.len() == 0 {
        true
    } else if a.first() != b.first() {
        part_before(a.first(), b.first())
    } else {
        parts_before(a.drop_first(), b.drop_first())
    }
}

/// The order of paths, component by component; the root counts as a component
/// that comes before every other.
pub open spec fn path_before(a: PathView, b: PathView) -> bool {
    if a.absolute == b.absolute {
        parts_before(a.parts, b.parts)
    } else if a.absolute {
        b.parts.len() > 0
    } else {
        a.parts.len() == 0
    }
}

/// The path itself and the paths above it that are not empty, the shallowest
/// first.
pub open spec fn chain(p: PathView) -> Seq<PathView> {
    let skip: int = if p.absolute { 0 } else { 1 };
    Seq::new(
        (p.parts.len() + 1 - skip) as nat,
        |i: int| PathView { absolute: p.absolute, parts: p.parts.take(i + skip) },
    )
}

/// Whether two strings lists hold the same texts.
fn same_parts(a: &Vec<String>, b: &Vec<String>, n: usize) -> (r: bool)
    requires
        n <= a@.len(),
        n <= b@.len(),
    ensures
        r == (a.deep_view().take(n as int) == b.deep_view().take(n as int)),
{
    let mut i: usize = 0;
    while i < n
        invariant
            i <= n,
            n <= a@.len(),
            n <= b@.len(),
            forall|j: int| 0 <= j < i ==> a.deep_view()[j] == b.deep_view()[j],
        decreases n - i,
    {
        if !text::same_text(a[i].as_str(), b[i].as_str()) {
            assert(a.deep_view().take(n as int)[i as int] != b.deep_view().take(n as int)[i as int]);
            return false;
        }
        i = i + 1;
    }
    assert(a.deep_view().take(n as int) =~= b.deep_view().take(n as int));
    true
}

fn is_part_before(a: &str, b: &str) -> (r: bool)
    ensures
        r == part_before(a@, b@),
{
    let ra: u8 = if text::same_text(a, ".") {
        0
    } else if text::same_text(a, "..") {
        1
    } else {
        2
    };
    let rb: u8 = if text::same_text(b, ".") {
        0
    } else if text::same_text(b, "..") {
        1
    } else {
        2
    };
    ra < rb || (ra == rb && text::is_text_before(a, b))
}

impl VaultPath {
    /// The path that `s` stands for.
    pub fn parse(s: &str) -> (r: VaultPath)
        ensures
            r.deep_view() == parsed(s@),
    {
        let cs: Vec<char> = text::chars_of(s);
        let absolute: bool = cs.len() > 0 && cs[0] == '/';
        let pieces: Vec<String> = text::split_pieces(s, Separator::Slash);
        let mut parts: Vec<String> = Vec::new();
        let mut i: usize = 0;
        while i < pieces.len()
            invariant
                i <= pieces@.len(),
                parts.deep_view() == components(pieces.deep_view(), i as int),
            decreases pieces.len() - i,
        {
            let piece: &str = pieces[i].as_str();
            let ghost before = parts.deep_view();
            if piece.unicode_len() > 0 && (i == 0 || !text::same_text(piece, ".")) {
                parts.push(pieces[i].clone());
                assert(parts.deep_view() =~= before.push(pieces[i as int]@));
            }
            i = i + 1;
        }
        VaultPath { absolute, parts }
    }

    /// The path as text.
    pub fn to_text(&self) -> (r: String)
        ensures
            r@ == display(self.deep_view()),
    {
        let below: String = text::joined(&self.parts, "/");
        if self.absolute {
            text::concat2("/", below.as_str())
        } else {
            below
        }
    }

    /// The empty relative path.
    pub fn empty() -> (r: VaultPath)
        ensures
            r.deep_view() == empty_path(),
    {
        let r: VaultPath = VaultPath { absolute: false, parts: Vec::new() };
        assert(r.deep_view().parts =~= empty_path().parts);
        r
    }

    /// Whether two paths are the same.
    pub fn same(&self, other: &VaultPath) -> (r: bool)
        ensures
            r == (self.deep_view() == other.deep_view()),
    {
        if self.absolute != other.absolute || self.parts.len() != other.parts.len() {
            assert(self.absolute != other.absolute || self.deep_view().parts.len()
                != other.deep_view().parts.len());
            return false;
        }
        let n: usize = self.parts.len();
        assert(self.parts.deep_view().take(n as int) =~= self.parts.deep_view());
        assert(other.parts.deep_view().take(n as int) =~= other.parts.deep_view());
        same_parts(&self.parts, &other.parts, n)
    }

    /// The path made of the first `n` components.
    pub fn prefix(&self, n: usize) -> (r: VaultPath)
        requires
            n <= self.parts@.len(),
        ensures
            r.deep_view() == (PathView {
                absolute: self.absolute,
                parts: self.parts.deep_view().take(n as int),
            }),
    {
        let mut parts: Vec<String> = Vec::new();
        let mut i: usize = 0;
        while i < n
            invariant
                i <= n <= self.parts@.len(),
                parts.deep_view() == self.parts.deep_view().take(i as int),
            decreases n - i,
        {
            let ghost before = parts.deep_view();
            parts.push(self.parts[i].clone());
            assert(parts.deep_view() =~= before.push(self.parts[i as int]@));
            i = i + 1;
        }
        VaultPath { absolute: self.absolute, parts }
    }

    /// The path without its last component.
    pub fn parent(&self) -> (r: Option<VaultPath>)
        ensures
            r.deep_view() == parent_of(self.deep_view()),
    {
        if self.parts.len() == 0 {
            None
        } else {
            let n: usize = self.parts.len() - 1;
            assert(self.parts.deep_view().take(n as int)
                =~= self.parts.deep_view().drop_last());
            Some(self.prefix(n))
        }
    }

    /// The last component, unless it is `.` or `..`.
    pub fn file_name(&self) -> (r: Option<String>)
        ensures
            r.deep_view() == name_of(self.deep_view()),
    {
        if self.parts.len() == 0 {
            return None;
        }
        let last: &String = &self.parts[self.parts.len() - 1];
        assert(self.parts.deep_view().last() == last@);
        if text::same_text(last.as_str(), "..") || text::same_text(last.as_str(), ".") {
            None
        } else {
            Some(last.clone())
        }
    }

    /// The last component without its extension.
    pub fn file_stem(&self) -> (r: Option<String>)
        ensures
            r.deep_view() == match name_of(self.deep_view()) {
                Some(n) => Some(stem(n)),
                None => None,
            },
    {
        match self.file_name() {
            None => None,
            Some(name) => {
                let cs: Vec<char> = text::chars_of(name.as_str());
                let mut i: usize = cs.len();
                while i > 0 && cs[i - 1] != '.'
                    invariant
                        i <= cs@.len(),
                        last_dot(cs@, i - 1) == last_dot(cs@, cs@.len() - 1),
                    decreases i,
                {
                    i = i - 1;
                }
                if i <= 1 {
                    Some(name)
                } else {
                    let s: String = text::string_of(&cs, 0, i - 1);
                    assert(s@ =~= cs@.take(i - 1));
                    Some(s)
                }
            },
        }
    }

    /// Whether the last component has this extension.
    pub fn has_extension(&self, ext: &str) -> (r: bool)
        ensures
            r == match name_of(self.deep_view()) {
                Some(n) => extension(n) == Some(ext@),
                None => false,
            },
    {
        match self.file_name() {
            None => false,
            Some(name) => {
                let cs: Vec<char> = text::chars_of(name.as_str());
                let mut i: usize = cs.len();
                while i > 0 && cs[i - 1] != '.'
                    invariant
                        i <= cs@.len(),
                        last_dot(cs@, i - 1) == last_dot(cs@, cs@.len() - 1),
                    decreases i,
                {
                    i = i - 1;
                }
                if i <= 1 {
                    false
                } else {
                    let s: String = text::string_of(&cs, i, cs.len());
                    assert(s@ =~= cs@.skip(i as int));
                    text::same_text(s.as_str(), ext)
                }
            },
        }
    }

    /// The path with one more component.
    pub fn join(&self, part: &str) -> (r: VaultPath)
        ensures
            r.deep_view() == joined(self.deep_view(), part@),
    {
        let mut r: VaultPath = self.clone();
        r.parts.push(part.to_owned());
        assert(r.deep_view().parts =~= self.deep_view().parts.push(part@));
        r
    }

    /// What is left of the path below `base`.
    pub fn strip_prefix(&self, base: &VaultPath) -> (r: Option<VaultPath>)
        ensures
            r.deep_view() == relative_to(self.deep_view(), base.deep_view()),
    {
        if !base.absolute && base.parts.len() == 0 {
            assert(base.deep_view() =~= empty_path());
            return Some(self.clone());
        }
        if self.absolute != base.absolute || base.parts.len() > self.parts.len() {
            return None;
        }
        let n: usize = base.parts.len();
        assert(base.parts.deep_view().take(n as int) =~= base.parts.deep_view());
        if !same_parts(&base.parts, &self.parts, n) {
            assert(!base.parts.deep_view().is_prefix_of(self.parts.deep_view())) by {
                if base.parts.deep_view().is_prefix_of(self.parts.deep_view()) {
                    assert(self.parts.deep_view().take(n as int) =~= base.parts.deep_view());
                }
            }
            return None;
        }
        assert(base.parts.deep_view() =~= self.parts.deep_view().subrange(0, n as int));
        let mut parts: Vec<String> = Vec::new();
        let mut i: usize = n;
        while i < self.parts.len()
            invariant
                n <= i <= self.parts@.len(),
                parts.deep_view() == self.parts.deep_view().subrange(n as int, i as int),
            decreases self.parts.len() - i,
        {
            let ghost before = parts.deep_view();
            parts.push(self.parts[i].clone());
            assert(parts.deep_view() =~= before.push(self.parts[i as int]@));
            i = i + 1;
        }
        assert(parts.deep_view() =~= self.parts.deep_view().skip(n as int));
        Some(VaultPath { absolute: false, parts })
    }

    /// Whether this path comes before `other`.
    pub fn is_before(&self, other: &VaultPath) -> (r: bool)
        ensures
            r == path_before(self.deep_view(), other.deep_view()),
    {
        if self.absolute != other.absolute {
            return if self.absolute {
                other.parts.len() > 0
            } else {
                self.parts.len() == 0
            };
        }
        let ghost a = self.parts.deep_view();
        let ghost b = other.parts.deep_view();
        let mut i: usize = 0;
        assert(a.skip(0) =~= a);
        assert(b.skip(0) =~= b);
        while i < self.parts.len() && i < other.parts.len()
            invariant
                i <= self.parts@.len(),
                i <= other.parts@.len(),
                a == self.parts.deep_view(),
                b == other.parts.deep_view(),
                self.absolute == other.absolute,
                parts_before(a, b) == parts_before(a.skip(i as int), b.skip(i as int)),
            decreases self.parts.len() - i,
        {
            let x: &str = self.parts[i].as_str();
            let y: &str = other.parts[i].as_str();
            assert(a.skip(i as int).first() == x@);
            assert(b.skip(i as int).first() == y@);
            if !text::same_text(x, y) {
                return is_part_before(x, y);
            }
            assert(a.skip(i as int).drop_first() =~= a.skip(i + 1));
            assert(b.skip(i as int).drop_first() =~= b.skip(i + 1));
            i = i + 1;
        }
        i < other.parts.len()
    }

    /// The path itself and the paths above it that are not empty, the
    /// shallowest first.
    pub fn ancestors_shallowest_first(&self) -> (r: Vec<VaultPath>)
        ensures
            r.deep_view() == chain(self.deep_view()),
    {
        let ghost skip: int = if self.absolute { 0 } else { 1 };
        let mut out: Vec<VaultPath> = Vec::new();
        if self.absolute {
            let root: VaultPath = self.prefix(0);
            out.push(root);
            assert(out.deep_view() =~= seq![root.deep_view()]);
        }
        assert(out.deep_view() =~= chain(self.deep_view()).take(1 - skip));
        let mut i: usize = 0;
        while i < self.parts.len()
            invariant
                skip == (if self.absolute { 0int } else { 1int }),
                i <= self.parts@.len(),
                out.deep_view() == chain(self.deep_view()).take(i + 1 - skip),
            decreases self.parts.len() - i,
        {
            let ghost before = out.deep_view();
            let p: VaultPath = self.prefix(i + 1);
            out.push(p);
            assert(out.deep_view() =~= before.push(p.deep_view()));
            i = i + 1;
        }
        out
    }
}

/// No path comes before itself.
pub proof fn lemma_parts_before_irreflexive(a: Seq<Seq<char>>)
    ensures
        !parts_before(a, a),
    decreases a.len(),
{
    if a.len() > 0 {
        lemma_parts_before_irreflexive(a.drop_first());
    }
}

/// The order of component lists is transitive.
pub proof fn lemma_parts_before_transitive(
    a: Seq<Seq<char>>,
    b: Seq<Seq<char>>,
    c: Seq<Seq<char>>,
)
    requires
        parts_before(a, b),
        parts_before(b, c),
    ensures
        parts_before(a, c),
    decreases a.len(),
{
    if a.len() > 0 {
        let (x, y, z) = (a.first(), b.first(), c.first());
        if x == y && y == z {
            lemma_parts_before_transitive(a.drop_first(), b.drop_first(), c.drop_first());
        } else if x != y && y != z {
            if rank(x) == rank(y) && rank(y) == rank(z) {
                text::lemma_text_before_transitive(x, y, z);
                text::lemma_text_before_irreflexive(x);
            }
            text::lemma_text_before_irreflexive(x);
            assert(x != z);
        }
    }
}

/// Of two different component lists one comes before the other.
pub proof fn lemma_parts_before_total(a: Seq<Seq<char>>, b: Seq<Seq<char>>)
    ensures
        parts_before(a, b) || parts_before(b, a) || a == b,
    decreases a.len(),
{
    if a.len() == 0 || b.len() == 0 {
        assert(a.len() == 0 && b.len() == 0 ==> a =~= b);
    } else if a.first() == b.first() {
        lemma_parts_before_total(a.drop_first(), b.drop_first());
        if a.drop_first() == b.drop_first() {
            assert(a =~= seq![a.first()] + a.drop_first());
            assert(b =~= seq![b.first()] + b.drop_first());
        }
    } else {
        text::lemma_text_before_total(a.first(), b.first());
    }
}

/// The order of paths is a strict total order.
pub proof fn lemma_path_order(a: PathView, b: PathView, c: PathView)
    ensures
        !path_before(a, a),
        path_before(a, b) && path_before(b, c) ==> path_before(a, c),
        path_before(a, b) || path_before(b, a) || a == b,
{
    lemma_parts_before_irreflexive(a.parts);
    if a.absolute == b.absolute && b.absolute == c.absolute && path_before(a, b) && path_before(
        b,
        c,
    ) {
        lemma_parts_before_transitive(a.parts, b.parts, c.parts);
    }
    lemma_parts_before_total(a.parts, b.parts);
}

/// A path comes after the path above it.
pub proof fn lemma_parent_before(p: PathView)
    ensures
        match parent_of(p) {
            Some(q) => path_before(q, p),
            None => true,
        },
{
    if p.parts.len() > 0 {
        lemma_prefix_before(p.parts, p.parts.len() - 1);
        assert(p.parts.take(p.parts.len() - 1) =~= p.parts.drop_last());
    }
}

proof fn lemma_prefix_before(s: Seq<Seq<char>>, n: int)
    requires
        0 <= n < s.len(),
    ensures
        parts_before(s.take(n), s),
    decreases n,
{
    if n > 0 {
        lemma_prefix_before(s.drop_first(), n - 1);
        assert(s.take(n).drop_first() =~= s.drop_first().take(n - 1));
    }
}

} // verus!
