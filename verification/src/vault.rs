//! Scans a vault directory and parses every `.org` file into a [`Node`].
//!
//! A directory can hold an `.INDEX` file. It names one of the directory's own
//! `.org` files as its index node, and says whether the others are put on the
//! same page (`flat = true`) or keep pages of their own (`flat = false`).

use crate::id_map::IdMap;
use crate::order;
use crate::org;
use crate::org_parser;
use crate::org_parser::{Node, NodeView, ParseError};
use crate::path;
use crate::path::{PathView, VaultPath};
use crate::ports;
use crate::ports::{FileSystem, FsError, FsErrorView};
use crate::text;
use crate::text::Separator;
use vstd::prelude::*;

verus! {

// ---------------------------------------------------------------------
// Types
// ---------------------------------------------------------------------

/// What is wrong with an `.INDEX` file.
#[derive(Debug, PartialEq, Eq)]
pub enum IndexProblem {
    /// No line names a file.
    MissingFile,
    /// No line sets `flat`.
    MissingFlat,
    /// `flat` is neither `true` nor `false`.
    BadFlat { value: String },
    /// An option other than `flat`.
    UnknownOption { key: String },
    /// `flat` is set twice.
    RepeatedFlat,
    /// Two lines name a file.
    RepeatedFile,
    /// The file named is no node of the directory.
    NotANode { name: String },
}

/// The model of an index problem.
pub enum ProblemView {
    MissingFile,
    MissingFlat,
    BadFlat { value: Seq<char> },
    UnknownOption { key: Seq<char> },
    RepeatedFlat,
    RepeatedFile,
    NotANode { name: Seq<char> },
}

impl DeepView for IndexProblem {
    type V = ProblemView;

    open spec fn deep_view(&self) -> ProblemView {
        match self {
            IndexProblem::MissingFile => ProblemView::MissingFile,
            IndexProblem::MissingFlat => ProblemView::MissingFlat,
            IndexProblem::BadFlat { value } => ProblemView::BadFlat { value: value@ },
            IndexProblem::UnknownOption { key } => ProblemView::UnknownOption { key: key@ },
            IndexProblem::RepeatedFlat => ProblemView::RepeatedFlat,
            IndexProblem::RepeatedFile => ProblemView::RepeatedFile,
            IndexProblem::NotANode { name } => ProblemView::NotANode { name: name@ },
        }
    }
}

/// An index problem as text.
pub open spec fn problem_text(p: ProblemView) -> Seq<char> {
    match p {
        ProblemView::MissingFile => "missing the index node's file path"@,
        ProblemView::MissingFlat => "missing the \"flat = true\" or \"flat = false\" line"@,
        ProblemView::BadFlat { value } => "the value of \"flat\" must be true or false, not "@
            + text::debug_quoted(value),
        ProblemView::UnknownOption { key } => "unknown option "@ + text::debug_quoted(key),
        ProblemView::RepeatedFlat => "\"flat\" is given more than once"@,
        ProblemView::RepeatedFile => "more than one file path is given"@,
        ProblemView::NotANode { name } => text::debug_quoted(name)
            + " is not an .org node file in this directory"@,
    }
}

impl IndexProblem {
    /// The problem as text.
    pub fn message(&self) -> (r: String)
        ensures
            r@ == problem_text(self.deep_view()),
    {
        match self {
            IndexProblem::MissingFile => "missing the index node's file path".to_owned(),
            IndexProblem::MissingFlat =>
                "missing the \"flat = true\" or \"flat = false\" line".to_owned(),
            IndexProblem::BadFlat { value } => text::concat2(
                "the value of \"flat\" must be true or false, not ",
                text::debug_quote(value.as_str()).as_str(),
            ),
            IndexProblem::UnknownOption { key } => text::concat2(
                "unknown option ",
                text::debug_quote(key.as_str()).as_str(),
            ),
            IndexProblem::RepeatedFlat => "\"flat\" is given more than once".to_owned(),
            IndexProblem::RepeatedFile => "more than one file path is given".to_owned(),
            IndexProblem::NotANode { name } => text::concat2(
                text::debug_quote(name.as_str()).as_str(),
                " is not an .org node file in this directory",
            ),
        }
    }
}

/// Failure while scanning a vault.
#[derive(Debug, PartialEq, Eq)]
pub enum VaultError {
    /// The vault could not be listed or a file could not be read.
    Fs(FsError),
    /// A file is longer than the parser can take.
    TooLong { path: VaultPath },
    /// A file could not be parsed into a node.
    Parse(ParseError),
    /// Two files claim the same ID.
    DuplicateId { id: String, first: String, second: String },
    /// An `.INDEX` file is not well-formed.
    InvalidIndex { path: VaultPath, problem: IndexProblem },
}

/// The model of a vault error.
pub enum VaultErrorView {
    Fs(FsErrorView),
    TooLong(PathView),
    MissingId(PathView),
    DuplicateId { id: Seq<char>, first: Seq<char>, second: Seq<char> },
    InvalidIndex { path: PathView, problem: ProblemView },
}

impl DeepView for VaultError {
    type V = VaultErrorView;

    open spec fn deep_view(&self) -> VaultErrorView {
        match self {
            VaultError::Fs(e) => VaultErrorView::Fs(e.deep_view()),
            VaultError::TooLong { path } => VaultErrorView::TooLong(path.deep_view()),
            VaultError::Parse(ParseError::MissingId { path }) => VaultErrorView::MissingId(
                path.deep_view(),
            ),
            VaultError::DuplicateId { id, first, second } => VaultErrorView::DuplicateId {
                id: id@,
                first: first@,
                second: second@,
            },
            VaultError::InvalidIndex { path, problem } => VaultErrorView::InvalidIndex {
                path: path.deep_view(),
                problem: problem.deep_view(),
            },
        }
    }
}

/// A vault error as text.
pub open spec fn vault_error_text(e: VaultErrorView) -> Seq<char> {
    match e {
        VaultErrorView::Fs(f) => ports::fs_error_text(f),
        VaultErrorView::TooLong(p) => path::display(p) + ": file is longer than 4294967295 bytes"@,
        VaultErrorView::MissingId(p) => org_parser::missing_id_message(p),
        VaultErrorView::DuplicateId { id, first, second } => "duplicate org-roam ID "@
            + text::debug_quoted(id) + " found in both "@ + first + " and "@ + second
            + " — IDs must be unique across the vault"@,
        VaultErrorView::InvalidIndex { path, problem } => path::display(path) + ": "@
            + problem_text(problem),
    }
}

impl VaultError {
    /// The error as text.
    pub fn message(&self) -> (r: String)
        ensures
            r@ == vault_error_text(self.deep_view()),
    {
        match self {
            VaultError::Fs(e) => e.message(),
            VaultError::TooLong { path } => text::concat2(
                path.to_text().as_str(),
                ": file is longer than 4294967295 bytes",
            ),
            VaultError::Parse(e) => e.message(),
            VaultError::DuplicateId { id, first, second } => {
                let mut s: String = text::concat2(
                    "duplicate org-roam ID ",
                    text::debug_quote(id.as_str()).as_str(),
                );
                s.append(" found in both ");
                s.append(first.as_str());
                s.append(" and ");
                s.append(second.as_str());
                s.append(" — IDs must be unique across the vault");
                s
            },
            VaultError::InvalidIndex { path, problem } => {
                let mut s: String = text::concat2(path.to_text().as_str(), ": ");
                s.append(problem.message().as_str());
                s
            },
        }
    }
}

/// The index of one directory.
#[derive(Debug, PartialEq, Eq)]
pub struct DirIndex {
    /// The directory, relative to the vault root; empty for the root itself.
    pub dir: VaultPath,
    /// The index node's file.
    pub file: VaultPath,
    /// Whether the directory's other nodes go on the same page.
    pub flat: bool,
}

/// The model of a directory's index.
pub struct DirIndexView {
    pub dir: PathView,
    pub file: PathView,
    pub flat: bool,
}

impl DeepView for DirIndex {
    type V = DirIndexView;

    open spec fn deep_view(&self) -> DirIndexView {
        DirIndexView {
            dir: self.dir.deep_view(),
            file: self.file.deep_view(),
            flat: self.flat,
        }
    }
}

/// A whole vault.
#[derive(Debug, PartialEq, Eq)]
pub struct Vault {
    /// The nodes, in the order of their paths.
    pub nodes: Vec<Node>,
    /// The directories that have an index.
    pub indexes: Vec<DirIndex>,
}

/// The model of a vault.
pub struct VaultView {
    pub nodes: Seq<NodeView>,
    pub indexes: Seq<DirIndexView>,
}

impl DeepView for Vault {
    type V = VaultView;

    open spec fn deep_view(&self) -> VaultView {
        VaultView { nodes: self.nodes.deep_view(), indexes: self.indexes.deep_view() }
    }
}

// ---------------------------------------------------------------------
// Index files
// ---------------------------------------------------------------------

/// The position of the first `=`.
pub open spec fn equals_sign(line: Seq<char>) -> Option<int> {
    text::find_from(line, "="@, 0)
}

/// What the lines read so far say: the file, and whether the layout is flat.
pub type IndexLines = (Option<Seq<char>>, Option<bool>);

/// What one more line adds.
pub open spec fn with_line(so_far: IndexLines, line: Seq<char>) -> Result<IndexLines, ProblemView> {
    match equals_sign(line) {
        None => if so_far.0 is Some {
            Err(ProblemView::RepeatedFile)
        } else {
            Ok((Some(line), so_far.1))
        },
        Some(i) => {
            let key = text::trim(line.take(i));
            let value = text::trim(line.skip(i + 1));
            if key != "flat"@ {
                Err(ProblemView::UnknownOption { key })
            } else if so_far.1 is Some {
                Err(ProblemView::RepeatedFlat)
            } else if value == "true"@ {
                Ok((so_far.0, Some(true)))
            } else if value == "false"@ {
                Ok((so_far.0, Some(false)))
            } else {
                Err(ProblemView::BadFlat { value })
            }
        },
    }
}

/// What lines say, up to the first that is wrong.
pub open spec fn with_lines(lines: Seq<Seq<char>>) -> Result<IndexLines, ProblemView>
    decreases lines.len(),
{
    if lines.len() == 0 {
        Ok((None, None))
    } else {
        match with_lines(lines.drop_last()) {
            Err(p) => Err(p),
            Ok(so_far) => with_line(so_far, lines.last()),
        }
    }
}

/// The file and the layout that an `.INDEX` file gives. Blank lines do not
/// count, and the lines may come in any order.
pub open spec fn parsed_index(s: Seq<char>) -> Result<(Seq<char>, bool), ProblemView> {
    match with_lines(text::nonblank_trimmed(text::split_by(s, Separator::Line))) {
        Err(p) => Err(p),
        Ok((None, _)) => Err(ProblemView::MissingFile),
        Ok((Some(_), None)) => Err(ProblemView::MissingFlat),
        Ok((Some(file), Some(flat))) => Ok((file, flat)),
    }
}

fn read_line(
    file: Option<String>,
    flat: Option<bool>,
    line: &str,
) -> (r: Result<(Option<String>, Option<bool>), IndexProblem>)
    ensures
        match r {
            Ok(p) => with_line((file.deep_view(), flat), line@) == Ok::<IndexLines, ProblemView>(
                (p.0.deep_view(), p.1),
            ),
            Err(e) => with_line((file.deep_view(), flat), line@) == Err::<IndexLines, ProblemView>(
                e.deep_view(),
            ),
        },
{
    let cs: Vec<char> = text::chars_of(line);
    match text::find(&cs, &text::chars_of("=")) {
        None => if file.is_some() {
            Err(IndexProblem::RepeatedFile)
        } else {
            Ok((Some(line.to_owned()), flat))
        },
        Some(i) => {
            proof {
                reveal_strlit("=");
            }
            let before: String = text::string_of(&cs, 0, i);
            let after: String = text::string_of(&cs, i + 1, cs.len());
            assert(before@ =~= line@.take(i as int));
            assert(after@ =~= line@.skip(i + 1));
            let key: String = text::trimmed(before.as_str());
            let value: String = text::trimmed(after.as_str());
            if !text::same_text(key.as_str(), "flat") {
                Err(IndexProblem::UnknownOption { key })
            } else if flat.is_some() {
                Err(IndexProblem::RepeatedFlat)
            } else if text::same_text(value.as_str(), "true") {
                Ok((file, Some(true)))
            } else if text::same_text(value.as_str(), "false") {
                Ok((file, Some(false)))
            } else {
                Err(IndexProblem::BadFlat { value })
            }
        },
    }
}

/// Parses the text of an `.INDEX` file into the name of the index node's file
/// and the layout.
pub fn parse_index(s: &str) -> (r: Result<(String, bool), IndexProblem>)
    ensures
        match r {
            Ok(p) => parsed_index(s@) == Ok::<(Seq<char>, bool), ProblemView>((p.0@, p.1)),
            Err(e) => parsed_index(s@) == Err::<(Seq<char>, bool), ProblemView>(e.deep_view()),
        },
{
    let lines: Vec<String> = text::trim_pieces(&text::split_pieces(s, Separator::Line));
    let ghost all = lines.deep_view();
    let mut file: Option<String> = None;
    let mut flat: Option<bool> = None;
    let mut i: usize = 0;
    while i < lines.len()
        invariant
            all == lines.deep_view(),
            all == text::nonblank_trimmed(text::split_by(s@, Separator::Line)),
            i <= lines@.len(),
            with_lines(all.take(i as int)) == Ok::<IndexLines, ProblemView>(
                (file.deep_view(), flat),
            ),
        decreases lines.len() - i,
    {
        proof {
            assert(all.take(i + 1).drop_last() =~= all.take(i as int));
            assert(all.take(i + 1).last() == lines[i as int]@);
        }
        match read_line(file, flat, lines[i].as_str()) {
            Ok((new_file, new_flat)) => {
                file = new_file;
                flat = new_flat;
            },
            Err(e) => {
                proof {
                    lemma_wrong_line(all, i + 1);
                }
                return Err(e);
            },
        }
        i = i + 1;
    }
    assert(all.take(i as int) =~= all);
    match file {
        None => Err(IndexProblem::MissingFile),
        Some(name) => match flat {
            None => Err(IndexProblem::MissingFlat),
            Some(f) => Ok((name, f)),
        },
    }
}

/// What follows a wrong line does not matter.
proof fn lemma_wrong_line(lines: Seq<Seq<char>>, k: int)
    requires
        0 <= k <= lines.len(),
        with_lines(lines.take(k)) is Err,
    ensures
        with_lines(lines) == with_lines(lines.take(k)),
    decreases lines.len() - k,
{
    if k == lines.len() {
        assert(lines.take(k) =~= lines);
    } else {
        assert(lines.take(k + 1).drop_last() =~= lines.take(k));
        lemma_wrong_line(lines, k + 1);
    }
}

// ---------------------------------------------------------------------
// Scanning
// ---------------------------------------------------------------------

/// The first of `nodes` with the given ID.
pub open spec fn with_id(nodes: Seq<NodeView>, id: Seq<char>) -> Option<NodeView>
    decreases nodes.len(),
{
    if nodes.len() == 0 {
        None
    } else if nodes.first().id == id {
        Some(nodes.first())
    } else {
        with_id(nodes.drop_first(), id)
    }
}

/// The nodes after one more file was read.
pub open spec fn with_file(
    nodes: Seq<NodeView>,
    p: PathView,
    reply: Result<Seq<char>, FsErrorView>,
) -> Result<Seq<NodeView>, VaultErrorView> {
    match reply {
        Err(e) => Err(VaultErrorView::Fs(e)),
        Ok(s) => if !org::fits(s) {
            Err(VaultErrorView::TooLong(p))
        } else {
            match org_parser::node_of(p, org::document_of(s)) {
                None => Err(VaultErrorView::MissingId(p)),
                Some(n) => match with_id(nodes, n.id) {
                    Some(first) => Err(
                        VaultErrorView::DuplicateId {
                            id: n.id,
                            first: path::display(first.file_path),
                            second: path::display(p),
                        },
                    ),
                    None => Ok(nodes.push(n)),
                },
            }
        },
    }
}

/// The nodes of the files read so far, up to the first that fails.
pub open spec fn with_files(
    paths: Seq<PathView>,
    replies: Seq<Result<Seq<char>, FsErrorView>>,
) -> Result<Seq<NodeView>, VaultErrorView>
    decreases replies.len(),
{
    if replies.len() == 0 {
        Ok(Seq::<NodeView>::empty())
    } else {
        match with_files(paths, replies.drop_last()) {
            Err(e) => Err(e),
            Ok(nodes) => with_file(nodes, paths[replies.len() - 1], replies.last()),
        }
    }
}

/// What was found of a directory's `.INDEX` file.
pub enum MarkerReply {
    /// There is none.
    Absent,
    /// It was read, or could not be.
    Read(Result<Seq<char>, FsErrorView>),
}

/// The `.INDEX` file of a directory.
pub open spec fn marker_of(dir: PathView) -> PathView {
    path::joined(dir, ".INDEX"@)
}

/// A path below the vault root, or the path itself where it is not below it.
pub open spec fn below(p: PathView, vault_dir: PathView) -> PathView {
    match path::relative_to(p, vault_dir) {
        Some(r) => r,
        None => p,
    }
}

/// Whether a file is one of the nodes' files.
pub open spec fn has_file(nodes: Seq<NodeView>, file: PathView) -> bool {
    exists|i: int| 0 <= i < nodes.len() && #[trigger] nodes[i].file_path == file
}

/// The indexes after one more directory was looked at.
pub open spec fn with_dir(
    indexes: Seq<DirIndexView>,
    nodes: Seq<NodeView>,
    vault_dir: PathView,
    dir: PathView,
    reply: MarkerReply,
) -> Result<Seq<DirIndexView>, VaultErrorView> {
    match reply {
        MarkerReply::Absent => Ok(indexes),
        MarkerReply::Read(Err(e)) => Err(VaultErrorView::Fs(e)),
        MarkerReply::Read(Ok(s)) => match parsed_index(s) {
            Err(problem) => Err(VaultErrorView::InvalidIndex { path: marker_of(dir), problem }),
            Ok((name, flat)) => {
                let file = path::joined(dir, name);
                if has_file(nodes, file) {
                    Ok(indexes.push(DirIndexView { dir: below(dir, vault_dir), file, flat }))
                } else {
                    Err(
                        VaultErrorView::InvalidIndex {
                            path: marker_of(dir),
                            problem: ProblemView::NotANode { name },
                        },
                    )
                }
            },
        },
    }
}

/// The indexes of the directories looked at so far, up to the first that
/// fails.
pub open spec fn with_dirs(
    nodes: Seq<NodeView>,
    vault_dir: PathView,
    dirs: Seq<PathView>,
    replies: Seq<MarkerReply>,
) -> Result<Seq<DirIndexView>, VaultErrorView>
    decreases replies.len(),
{
    if replies.len() == 0 {
        Ok(Seq::<DirIndexView>::empty())
    } else {
        match with_dirs(nodes, vault_dir, dirs, replies.drop_last()) {
            Err(e) => Err(e),
            Ok(indexes) => with_dir(
                indexes,
                nodes,
                vault_dir,
                dirs[replies.len() - 1],
                replies.last(),
            ),
        }
    }
}

/// The directories of files, in the order of the files.
pub open spec fn parents(paths: Seq<PathView>) -> Seq<PathView>
    decreases paths.len(),
{
    if paths.len() == 0 {
        Seq::<PathView>::empty()
    } else {
        match path::parent_of(paths.last()) {
            Some(d) => parents(paths.drop_last()).push(d),
            None => parents(paths.drop_last()),
        }
    }
}

/// Whether the files can be read with these replies, in order.
pub open spec fn files_read<F: FileSystem>(
    fs: &F,
    paths: Seq<PathView>,
    replies: Seq<Result<Seq<char>, FsErrorView>>,
) -> bool {
    &&& replies.len() <= paths.len()
    &&& forall|k: int| 0 <= k < replies.len() ==> #[trigger] fs.can_read(paths[k], replies[k])
}

/// Whether looking for a directory's `.INDEX` file can give the reply.
pub open spec fn can_mark<F: FileSystem>(fs: &F, dir: PathView, reply: MarkerReply) -> bool {
    match reply {
        MarkerReply::Absent => fs.can_exist(marker_of(dir), false),
        MarkerReply::Read(text) => fs.can_exist(marker_of(dir), true) && fs.can_read(
            marker_of(dir),
            text,
        ),
    }
}

/// Whether the directories can be looked at with these replies, in order.
pub open spec fn dirs_marked<F: FileSystem>(
    fs: &F,
    dirs: Seq<PathView>,
    replies: Seq<MarkerReply>,
) -> bool {
    &&& replies.len() <= dirs.len()
    &&& forall|k: int| 0 <= k < replies.len() ==> #[trigger] can_mark(fs, dirs[k], replies[k])
}

/// The files of a vault in order.
pub open spec fn in_order(paths: Seq<PathView>) -> Seq<PathView> {
    order::sorted::<VaultPath>(paths)
}

/// The directories that hold files, in order.
pub open spec fn file_dirs(paths: Seq<PathView>) -> Seq<PathView> {
    order::path_set(parents(in_order(paths)))
}

/// What a scan that got these replies gives: the files are read in order and
/// then the directories looked at, each up to the first failure.
pub open spec fn scan_spec(
    vault_dir: PathView,
    listing: Result<Seq<PathView>, FsErrorView>,
    files: Seq<Result<Seq<char>, FsErrorView>>,
    markers: Seq<MarkerReply>,
) -> Result<VaultView, VaultErrorView> {
    match listing {
        Err(e) => Err(VaultErrorView::Fs(e)),
        Ok(paths) => match with_files(in_order(paths), files) {
            Err(e) => Err(e),
            Ok(nodes) => match with_dirs(nodes, vault_dir, file_dirs(paths), markers) {
                Err(e) => Err(e),
                Ok(indexes) => Ok(VaultView { nodes, indexes }),
            },
        },
    }
}

/// Whether these are replies that a whole scan can get: nothing is asked
/// beyond a failure, and all that is needed is asked.
pub open spec fn scan_replies<F: FileSystem>(
    fs: &F,
    vault_dir: PathView,
    listing: Result<Seq<PathView>, FsErrorView>,
    files: Seq<Result<Seq<char>, FsErrorView>>,
    markers: Seq<MarkerReply>,
) -> bool {
    &&& fs.can_list(vault_dir, listing)
    &&& match listing {
        Err(_) => files.len() == 0 && markers.len() == 0,
        Ok(paths) => {
            &&& files_read(fs, in_order(paths), files)
            &&& dirs_marked(fs, file_dirs(paths), markers)
            &&& files.len() > 0 ==> with_files(in_order(paths), files.drop_last()) is Ok
            &&& match with_files(in_order(paths), files) {
                Err(_) => markers.len() == 0,
                Ok(nodes) => {
                    &&& files.len() == paths.len()
                    &&& markers.len() > 0 ==> with_dirs(
                        nodes,
                        vault_dir,
                        file_dirs(paths),
                        markers.drop_last(),
                    ) is Ok
                    &&& with_dirs(nodes, vault_dir, file_dirs(paths), markers) is Ok
                        ==> markers.len() == file_dirs(paths).len()
                },
            }
        },
    }
}

/// The result of a scan, by its model.
pub open spec fn scan_view(r: Result<Vault, VaultError>) -> Result<VaultView, VaultErrorView> {
    match r {
        Ok(v) => Ok(v.deep_view()),
        Err(e) => Err(e.deep_view()),
    }
}

fn find_node(nodes: &Vec<Node>, id: &str) -> (r: Option<usize>)
    ensures
        match r {
            Some(i) => i < nodes@.len() && with_id(nodes.deep_view(), id@) == Some(
                nodes[i as int].deep_view(),
            ),
            None => with_id(nodes.deep_view(), id@) is None,
        },
{
    let ghost all = nodes.deep_view();
    let mut i: usize = 0;
    assert(all.skip(0) =~= all);
    while i < nodes.len()
        invariant
            all == nodes.deep_view(),
            i <= nodes@.len(),
            with_id(all, id@) == with_id(all.skip(i as int), id@),
        decreases nodes.len() - i,
    {
        assert(all.skip(i as int).first() == nodes[i as int].deep_view());
        if text::same_text(nodes[i].id.as_str(), id) {
            return Some(i);
        }
        assert(all.skip(i as int).drop_first() =~= all.skip(i + 1));
        i = i + 1;
    }
    None
}

/// Adds the node of one file that was read, or could not be.
pub fn add_file(
    nodes: &mut Vec<Node>,
    p: &VaultPath,
    reply: Result<String, FsError>,
) -> (r: Result<(), VaultError>)
    ensures
        match r {
            Ok(_) => with_file(old(nodes).deep_view(), p.deep_view(), ports::read_view(reply))
                == Ok::<Seq<NodeView>, VaultErrorView>(final(nodes).deep_view()),
            Err(e) => with_file(old(nodes).deep_view(), p.deep_view(), ports::read_view(reply))
                == Err::<Seq<NodeView>, VaultErrorView>(e.deep_view()) && *final(nodes) == *old(
                nodes,
            ),
        },
{
    let ghost before = nodes.deep_view();
    match reply {
        Err(e) => Err(VaultError::Fs(e)),
        Ok(s) => {
            if s.as_str().as_bytes().len() > u32::MAX as usize {
                return Err(VaultError::TooLong { path: p.clone() });
            }
            match org_parser::parse_node(p, s.as_str()) {
                Err(e) => Err(VaultError::Parse(e)),
                Ok(node) => match find_node(nodes, node.id.as_str()) {
                    Some(i) => Err(
                        VaultError::DuplicateId {
                            id: node.id.clone(),
                            first: nodes[i].file_path.to_text(),
                            second: p.to_text(),
                        },
                    ),
                    None => {
                        nodes.push(node);
                        assert(nodes.deep_view() =~= before.push(node.deep_view()));
                        Ok(())
                    },
                },
            }
        },
    }
}

fn names_a_file(nodes: &Vec<Node>, file: &VaultPath) -> (r: bool)
    ensures
        r == has_file(nodes.deep_view(), file.deep_view()),
{
    let mut i: usize = 0;
    while i < nodes.len()
        invariant
            i <= nodes@.len(),
            forall|j: int|
                0 <= j < i ==> #[trigger] nodes.deep_view()[j].file_path != file.deep_view(),
        decreases nodes.len() - i,
    {
        assert(nodes.deep_view()[i as int] == nodes[i as int].deep_view());
        if nodes[i].file_path.same(file) {
            assert(nodes.deep_view()[i as int].file_path == file.deep_view());
            return true;
        }
        i = i + 1;
    }
    false
}

fn strip(p: &VaultPath, vault_dir: &VaultPath) -> (r: VaultPath)
    ensures
        r.deep_view() == below(p.deep_view(), vault_dir.deep_view()),
{
    match p.strip_prefix(vault_dir) {
        Some(q) => q,
        None => p.clone(),
    }
}

/// Adds the index of one directory whose `.INDEX` file was read, or could not
/// be.
pub fn add_index(
    indexes: &mut Vec<DirIndex>,
    nodes: &Vec<Node>,
    vault_dir: &VaultPath,
    dir: &VaultPath,
    reply: Result<String, FsError>,
) -> (r: Result<(), VaultError>)
    ensures
        match r {
            Ok(_) => with_dir(
                old(indexes).deep_view(),
                nodes.deep_view(),
                vault_dir.deep_view(),
                dir.deep_view(),
                MarkerReply::Read(ports::read_view(reply)),
            ) == Ok::<Seq<DirIndexView>, VaultErrorView>(final(indexes).deep_view()),
            Err(e) => with_dir(
                old(indexes).deep_view(),
                nodes.deep_view(),
                vault_dir.deep_view(),
                dir.deep_view(),
                MarkerReply::Read(ports::read_view(reply)),
            ) == Err::<Seq<DirIndexView>, VaultErrorView>(e.deep_view()) && *final(indexes) == *old(
                indexes,
            ),
        },
{
    let ghost before = indexes.deep_view();
    match reply {
        Err(e) => Err(VaultError::Fs(e)),
        Ok(s) => match parse_index(s.as_str()) {
            Err(problem) => Err(
                VaultError::InvalidIndex { path: dir.join(".INDEX"), problem },
            ),
            Ok((name, flat)) => {
                let file: VaultPath = dir.join(name.as_str());
                if names_a_file(nodes, &file) {
                    let index: DirIndex = DirIndex { dir: strip(dir, vault_dir), file, flat };
                    indexes.push(index);
                    assert(indexes.deep_view() =~= before.push(index.deep_view()));
                    Ok(())
                } else {
                    Err(
                        VaultError::InvalidIndex {
                            path: dir.join(".INDEX"),
                            problem: IndexProblem::NotANode { name },
                        },
                    )
                }
            },
        },
    }
}

fn parent_dirs(paths: &Vec<VaultPath>) -> (r: Vec<VaultPath>)
    ensures
        r.deep_view() == parents(paths.deep_view()),
{
    let ghost all = paths.deep_view();
    let mut out: Vec<VaultPath> = Vec::new();
    let mut i: usize = 0;
    assert(out.deep_view() =~= parents(all.take(0)));
    while i < paths.len()
        invariant
            all == paths.deep_view(),
            i <= paths@.len(),
            out.deep_view() == parents(all.take(i as int)),
        decreases paths.len() - i,
    {
        assert(all.take(i + 1).drop_last() =~= all.take(i as int));
        assert(all.take(i + 1).last() == paths[i as int].deep_view());
        let ghost before = out.deep_view();
        match paths[i].parent() {
            Some(d) => {
                out.push(d);
                assert(out.deep_view() =~= before.push(d.deep_view()));
            },
            None => {},
        }
        i = i + 1;
    }
    assert(all.take(i as int) =~= all);
    out
}

/// Scans `vault_dir` for `.org` files and parses each one.
///
/// The files are read in the order of their paths, so that scans are
/// reproducible. The first file that cannot be read or parsed, the first ID
/// that occurs twice and the first `.INDEX` file that is wrong end the scan.
pub fn scan<F: FileSystem>(fs: &F, vault_dir: &VaultPath) -> (r: Result<Vault, VaultError>)
    ensures
        exists|
            listing: Result<Seq<PathView>, FsErrorView>,
            files: Seq<Result<Seq<char>, FsErrorView>>,
            markers: Seq<MarkerReply>,
        |
            #![trigger scan_replies(fs, vault_dir.deep_view(), listing, files, markers)]
            scan_replies(fs, vault_dir.deep_view(), listing, files, markers) && scan_view(r)
                == scan_spec(vault_dir.deep_view(), listing, files, markers),
{
    let ghost root = vault_dir.deep_view();
    let ghost no_files = Seq::<Result<Seq<char>, FsErrorView>>::empty();
    let ghost no_markers = Seq::<MarkerReply>::empty();
    let listed: Result<Vec<VaultPath>, FsError> = fs.list_org_files(vault_dir);
    let ghost listing = ports::listing_view(listed);
    let paths: Vec<VaultPath> = match listed {
        Ok(v) => v,
        Err(e) => {
            assert(scan_replies(fs, root, listing, no_files, no_markers));
            return Err(VaultError::Fs(e));
        },
    };
    let ghost given = paths.deep_view();
    let paths: Vec<VaultPath> = order::sort(paths);
    let ghost all = paths.deep_view();
    proof {
        order::lemma_sorted::<VaultPath>(given);
    }

    let mut nodes: Vec<Node> = Vec::new();
    let ghost mut files = no_files;
    let mut i: usize = 0;
    assert(nodes.deep_view() =~= Seq::<NodeView>::empty());
    while i < paths.len()
        invariant
            root == vault_dir.deep_view(),
            listing == Ok::<Seq<PathView>, FsErrorView>(given),
            fs.can_list(root, listing),
            all == paths.deep_view(),
            all == in_order(given),
            no_markers == Seq::<MarkerReply>::empty(),
            i <= paths@.len(),
            files.len() == i,
            files_read(fs, all, files),
            with_files(all, files) == Ok::<Seq<NodeView>, VaultErrorView>(nodes.deep_view()),
        decreases paths.len() - i,
    {
        let reply: Result<String, FsError> = fs.read_to_string(&paths[i]);
        let ghost before = files;
        proof {
            files = before.push(ports::read_view(reply));
            assert(files.drop_last() =~= before);
            assert(all[i as int] == paths[i as int].deep_view());
            assert(files_read(fs, all, files)) by {
                assert forall|k: int| 0 <= k < files.len() implies #[trigger] fs.can_read(
                    all[k],
                    files[k],
                ) by {
                    if k < i {
                        assert(fs.can_read(all[k], before[k]));
                    }
                }
            }
        }
        match add_file(&mut nodes, &paths[i], reply) {
            Ok(_) => {},
            Err(e) => {
                assert(scan_replies(fs, root, listing, files, no_markers));
                return Err(e);
            },
        }
        i = i + 1;
    }

    let dirs: Vec<VaultPath> = order::sorted_path_set(parent_dirs(&paths));
    let ghost all_dirs = dirs.deep_view();
    let mut indexes: Vec<DirIndex> = Vec::new();
    let ghost mut markers = no_markers;
    let mut k: usize = 0;
    assert(indexes.deep_view() =~= Seq::<DirIndexView>::empty());
    while k < dirs.len()
        invariant
            root == vault_dir.deep_view(),
            listing == Ok::<Seq<PathView>, FsErrorView>(given),
            fs.can_list(root, listing),
            files_read(fs, in_order(given), files),
            files.len() == given.len(),
            with_files(in_order(given), files) == Ok::<Seq<NodeView>, VaultErrorView>(
                nodes.deep_view(),
            ),
            all_dirs == dirs.deep_view(),
            all_dirs == file_dirs(given),
            k <= dirs@.len(),
            markers.len() == k,
            dirs_marked(fs, all_dirs, markers),
            with_dirs(nodes.deep_view(), root, all_dirs, markers) == Ok::<
                Seq<DirIndexView>,
                VaultErrorView,
            >(indexes.deep_view()),
        decreases dirs.len() - k,
    {
        let marker: VaultPath = dirs[k].join(".INDEX");
        let ghost before = markers;
        assert(all_dirs[k as int] == dirs[k as int].deep_view());
        if fs.file_exists(&marker) {
            let reply: Result<String, FsError> = fs.read_to_string(&marker);
            proof {
                let m = MarkerReply::Read(ports::read_view(reply));
                markers = before.push(m);
                assert(markers.drop_last() =~= before);
                assert(can_mark(fs, all_dirs[k as int], m));
                lemma_one_more_marker(fs, all_dirs, before, m);
            }
            match add_index(&mut indexes, &nodes, vault_dir, &dirs[k], reply) {
                Ok(_) => {},
                Err(e) => {
                    assert(scan_replies(fs, root, listing, files, markers));
                    return Err(e);
                },
            }
        } else {
            proof {
                markers = before.push(MarkerReply::Absent);
                assert(markers.drop_last() =~= before);
                assert(can_mark(fs, all_dirs[k as int], MarkerReply::Absent));
                lemma_one_more_marker(fs, all_dirs, before, MarkerReply::Absent);
            }
        }
        k = k + 1;
    }
    assert(scan_replies(fs, root, listing, files, markers));
    Ok(Vault { nodes, indexes })
}

proof fn lemma_one_more_marker<F: FileSystem>(
    fs: &F,
    dirs: Seq<PathView>,
    replies: Seq<MarkerReply>,
    m: MarkerReply,
)
    requires
        dirs_marked(fs, dirs, replies),
        replies.len() < dirs.len(),
        can_mark(fs, dirs[replies.len() as int], m),
    ensures
        dirs_marked(fs, dirs, replies.push(m)),
{
    let more = replies.push(m);
    assert forall|k: int| 0 <= k < more.len() implies #[trigger] can_mark(
        fs,
        dirs[k],
        more[k],
    ) by {
        if k < replies.len() {
            assert(can_mark(fs, dirs[k], replies[k]));
        }
    }
}

// ---------------------------------------------------------------------
// Lookups
// ---------------------------------------------------------------------

/// The index of a directory.
pub open spec fn index_for(v: VaultView, dir: PathView) -> Option<DirIndexView> {
    first_index(v.indexes, dir)
}

/// The first index of a directory.
pub open spec fn first_index(indexes: Seq<DirIndexView>, dir: PathView) -> Option<DirIndexView>
    decreases indexes.len(),
{
    if indexes.len() == 0 {
        None
    } else if indexes.first().dir == dir {
        Some(indexes.first())
    } else {
        first_index(indexes.drop_first(), dir)
    }
}

/// The first node of a file.
pub open spec fn node_of_file(nodes: Seq<NodeView>, file: PathView) -> Option<NodeView>
    decreases nodes.len(),
{
    if nodes.len() == 0 {
        None
    } else if nodes.first().file_path == file {
        Some(nodes.first())
    } else {
        node_of_file(nodes.drop_first(), file)
    }
}

/// The index node of a directory.
pub open spec fn index_node_of(v: VaultView, dir: PathView) -> Option<NodeView> {
    match index_for(v, dir) {
        Some(index) => node_of_file(v.nodes, index.file),
        None => None,
    }
}

/// From node IDs to the positions of the nodes.
pub open spec fn id_index_spec(nodes: Seq<NodeView>) -> Map<Seq<char>, usize>
    decreases nodes.len(),
{
    if nodes.len() == 0 {
        Map::<Seq<char>, usize>::empty()
    } else {
        id_index_spec(nodes.drop_last()).insert(nodes.last().id, (nodes.len() - 1) as usize)
    }
}

impl Vault {
    /// From node IDs to the positions of the nodes, for resolving links.
    pub fn id_index(&self) -> (r: IdMap<usize>)
        ensures
            r.map() == id_index_spec(self.nodes.deep_view()),
    {
        let ghost all = self.nodes.deep_view();
        let mut index: IdMap<usize> = IdMap::new();
        let mut i: usize = 0;
        assert(index.map() =~= id_index_spec(all.take(0)));
        while i < self.nodes.len()
            invariant
                all == self.nodes.deep_view(),
                i <= self.nodes@.len(),
                index.map() == id_index_spec(all.take(i as int)),
            decreases self.nodes.len() - i,
        {
            assert(all.take(i + 1).drop_last() =~= all.take(i as int));
            assert(all.take(i + 1).last() == self.nodes[i as int].deep_view());
            index.insert(self.nodes[i].id.clone(), i);
            i = i + 1;
        }
        assert(all.take(i as int) =~= all);
        index
    }

    /// The index of a directory.
    pub fn index_of(&self, dir: &VaultPath) -> (r: Option<&DirIndex>)
        ensures
            match r {
                Some(index) => index_for(self.deep_view(), dir.deep_view()) == Some(
                    index.deep_view(),
                ),
                None => index_for(self.deep_view(), dir.deep_view()) is None,
            },
    {
        let ghost all = self.indexes.deep_view();
        let ghost d = dir.deep_view();
        let mut i: usize = 0;
        assert(all.skip(0) =~= all);
        while i < self.indexes.len()
            invariant
                all == self.indexes.deep_view(),
                d == dir.deep_view(),
                i <= self.indexes@.len(),
                first_index(all, d) == first_index(all.skip(i as int), d),
            decreases self.indexes.len() - i,
        {
            assert(all.skip(i as int).first() == self.indexes[i as int].deep_view());
            if self.indexes[i].dir.same(dir) {
                return Some(&self.indexes[i]);
            }
            assert(all.skip(i as int).drop_first() =~= all.skip(i + 1));
            i = i + 1;
        }
        None
    }

    /// The index node of a directory.
    pub fn index_node(&self, dir: &VaultPath) -> (r: Option<&Node>)
        ensures
            match r {
                Some(node) => index_node_of(self.deep_view(), dir.deep_view()) == Some(
                    node.deep_view(),
                ),
                None => index_node_of(self.deep_view(), dir.deep_view()) is None,
            },
    {
        match self.index_of(dir) {
            None => None,
            Some(index) => {
                let ghost all = self.nodes.deep_view();
                let ghost f = index.file.deep_view();
                let mut i: usize = 0;
                assert(all.skip(0) =~= all);
                while i < self.nodes.len()
                    invariant
                        all == self.nodes.deep_view(),
                        f == index.file.deep_view(),
                        index_for(self.deep_view(), dir.deep_view()) == Some(index.deep_view()),
                        i <= self.nodes@.len(),
                        node_of_file(all, f) == node_of_file(all.skip(i as int), f),
                    decreases self.nodes.len() - i,
                {
                    assert(all.skip(i as int).first() == self.nodes[i as int].deep_view());
                    if self.nodes[i].file_path.same(&index.file) {
                        return Some(&self.nodes[i]);
                    }
                    assert(all.skip(i as int).drop_first() =~= all.skip(i + 1));
                    i = i + 1;
                }
                None
            },
        }
    }
}

// ---------------------------------------------------------------------
// Laws
// ---------------------------------------------------------------------

/// Whether no two nodes have the same ID.
pub open spec fn unique_ids(nodes: Seq<NodeView>) -> bool {
    forall|i: int, j: int|
        #![trigger nodes[i], nodes[j]]
        0 <= i < j < nodes.len() ==> nodes[i].id != nodes[j].id
}

proof fn lemma_with_id(nodes: Seq<NodeView>, id: Seq<char>)
    requires
        with_id(nodes, id) is None,
    ensures
        forall|i: int| 0 <= i < nodes.len() ==> (#[trigger] nodes[i]).id != id,
    decreases nodes.len(),
{
    if nodes.len() > 0 {
        lemma_with_id(nodes.drop_first(), id);
        assert forall|i: int| 0 <= i < nodes.len() implies (#[trigger] nodes[i]).id != id by {
            if i > 0 {
                assert(nodes.drop_first()[i - 1] == nodes[i]);
            }
        }
    }
}

/// Whether a node was made of the text that was read of a file.
pub open spec fn is_node_of(
    n: NodeView,
    p: PathView,
    reply: Result<Seq<char>, FsErrorView>,
) -> bool {
    match reply {
        Ok(s) => org::fits(s) && org_parser::node_of(p, org::document_of(s)) == Some(n),
        Err(_) => false,
    }
}

proof fn lemma_with_files(
    paths: Seq<PathView>,
    replies: Seq<Result<Seq<char>, FsErrorView>>,
    nodes: Seq<NodeView>,
)
    requires
        with_files(paths, replies) == Ok::<Seq<NodeView>, VaultErrorView>(nodes),
    ensures
        nodes.len() == replies.len(),
        unique_ids(nodes),
        forall|k: int|
            0 <= k < nodes.len() ==> is_node_of(#[trigger] nodes[k], paths[k], replies[k]),
    decreases replies.len(),
{
    if replies.len() > 0 {
        let h = replies.drop_last();
        let m = replies.len() - 1;
        let before = with_files(paths, h)->Ok_0;
        lemma_with_files(paths, h, before);
        let n = org_parser::node_of(paths[m], org::document_of(replies.last()->Ok_0))->0;
        lemma_with_id(before, n.id);
        assert(nodes == before.push(n));
        assert forall|k: int| 0 <= k < nodes.len() implies is_node_of(
            #[trigger] nodes[k],
            paths[k],
            replies[k],
        ) by {
            if k < m {
                assert(before[k] == nodes[k]);
                assert(h[k] == replies[k]);
            }
        }
        assert forall|i: int, j: int|
            #![trigger nodes[i], nodes[j]]
            0 <= i < j < nodes.len() implies nodes[i].id != nodes[j].id by {
            assert(before[i] == nodes[i]);
            if j < m {
                assert(before[j] == nodes[j]);
            }
        }
    }
}

/// A vault that was scanned holds one node for each file, in the order of the
/// paths, each made of its own file's text; and no two have the same ID.
pub proof fn law_scanned_nodes(
    vault_dir: PathView,
    paths: Seq<PathView>,
    files: Seq<Result<Seq<char>, FsErrorView>>,
    markers: Seq<MarkerReply>,
    v: VaultView,
)
    requires
        scan_spec(vault_dir, Ok(paths), files, markers) == Ok::<VaultView, VaultErrorView>(v),
        files.len() == paths.len(),
    ensures
        v.nodes.len() == paths.len(),
        unique_ids(v.nodes),
        forall|k: int|
            0 <= k < v.nodes.len() ==> is_node_of(
                #[trigger] v.nodes[k],
                in_order(paths)[k],
                files[k],
            ) && v.nodes[k].file_path == in_order(paths)[k],
        order::is_sorted::<VaultPath>(in_order(paths)),
        in_order(paths).to_multiset() == paths.to_multiset(),
{
    lemma_with_files(in_order(paths), files, v.nodes);
    order::lemma_sorted::<VaultPath>(paths);
}

proof fn lemma_with_dirs(
    nodes: Seq<NodeView>,
    vault_dir: PathView,
    dirs: Seq<PathView>,
    replies: Seq<MarkerReply>,
    indexes: Seq<DirIndexView>,
)
    requires
        with_dirs(nodes, vault_dir, dirs, replies) == Ok::<Seq<DirIndexView>, VaultErrorView>(
            indexes,
        ),
        replies.len() <= dirs.len(),
    ensures
        forall|k: int|
            0 <= k < indexes.len() ==> index_sound(nodes, vault_dir, dirs, #[trigger] indexes[k]),
    decreases replies.len(),
{
    if replies.len() > 0 {
        let h = replies.drop_last();
        let before = with_dirs(nodes, vault_dir, dirs, h)->Ok_0;
        let dir = dirs[replies.len() - 1];
        lemma_with_dirs(nodes, vault_dir, dirs, h, before);
        if indexes != before {
            let x = indexes.last();
            assert(indexes == before.push(x));
            assert(x.file.parts.drop_last() =~= dir.parts);
            assert(dirs.contains(dir));
            assert(index_sound(nodes, vault_dir, dirs, x));
            assert forall|k: int| 0 <= k < indexes.len() implies index_sound(
                nodes,
                vault_dir,
                dirs,
                #[trigger] indexes[k],
            ) by {
                if k < before.len() {
                    assert(before[k] == indexes[k]);
                }
            }
        }
    }
}

/// Whether an index names the file of a node that lies directly in the
/// directory that it is the index of.
pub open spec fn index_sound(
    nodes: Seq<NodeView>,
    vault_dir: PathView,
    dirs: Seq<PathView>,
    x: DirIndexView,
) -> bool {
    &&& has_file(nodes, x.file)
    &&& path::parent_of(x.file) is Some
    &&& dirs.contains(path::parent_of(x.file)->0)
    &&& x.dir == below(path::parent_of(x.file)->0, vault_dir)
}

/// Every index of a vault that was scanned names a node that lies directly in
/// the index's directory.
pub proof fn law_scanned_indexes(
    vault_dir: PathView,
    paths: Seq<PathView>,
    files: Seq<Result<Seq<char>, FsErrorView>>,
    markers: Seq<MarkerReply>,
    v: VaultView,
)
    requires
        scan_spec(vault_dir, Ok(paths), files, markers) == Ok::<VaultView, VaultErrorView>(v),
        markers.len() <= file_dirs(paths).len(),
    ensures
        forall|k: int|
            0 <= k < v.indexes.len() ==> index_sound(
                v.nodes,
                vault_dir,
                file_dirs(paths),
                #[trigger] v.indexes[k],
            ),
{
    lemma_with_dirs(v.nodes, vault_dir, file_dirs(paths), markers, v.indexes);
}

/// Whether a line names a file.
pub open spec fn is_file_line(line: Seq<char>) -> bool {
    equals_sign(line) is None
}

/// Whether a line sets `flat` to the given value.
pub open spec fn is_flat_line(line: Seq<char>, flat: bool) -> bool {
    &&& equals_sign(line) matches Some(i)
    &&& text::trim(line.take(i)) == "flat"@
    &&& text::trim(line.skip(i + 1)) == (if flat {
        "true"@
    } else {
        "false"@
    })
}

proof fn lemma_line_count(lines: Seq<Seq<char>>)
    ensures
        with_lines(lines) matches Ok(x) ==> lines.len() == (if x.0 is Some {
            1int
        } else {
            0
        }) + (if x.1 is Some {
            1int
        } else {
            0
        }),
    decreases lines.len(),
{
    if lines.len() > 0 {
        lemma_line_count(lines.drop_last());
    }
}

/// An `.INDEX` file is well-formed exactly if it has two lines that are not
/// blank, one that names a file and one that sets `flat`, in either order.
pub proof fn law_index_lines(s: Seq<char>, file: Seq<char>, flat: bool)
    ensures
        parsed_index(s) == Ok::<(Seq<char>, bool), ProblemView>((file, flat)) <==> ({
            let lines = text::nonblank_trimmed(text::split_by(s, Separator::Line));
            &&& lines.len() == 2
            &&& {
                ||| lines[0] == file && is_file_line(file) && is_flat_line(lines[1], flat)
                ||| lines[1] == file && is_file_line(file) && is_flat_line(lines[0], flat)
            }
        }),
{
    reveal_strlit("true");
    reveal_strlit("false");
    assert("true"@ != "false"@) by {
        assert("true"@.len() == 4);
        assert("false"@.len() == 5);
    }
    let lines = text::nonblank_trimmed(text::split_by(s, Separator::Line));
    lemma_line_count(lines);
    if lines.len() == 2 {
        let one = lines.drop_last();
        assert(one.last() == lines[0]);
        assert(one.drop_last() =~= Seq::<Seq<char>>::empty());
        assert(with_lines(one.drop_last()) == Ok::<IndexLines, ProblemView>((None, None)));
        assert(with_lines(one) == with_line((None, None), lines[0]));
    }
}

} // verus!
