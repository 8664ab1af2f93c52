//! What the library asks of the outside world, and the values that come back.

use crate::blocks::{Block, BlockView};
use crate::path;
use crate::path::{PathView, VaultPath};
use crate::text;
use vstd::prelude::*;

verus! {

/// A filesystem failure.
#[derive(Debug, PartialEq, Eq)]
pub enum FsError {
    /// The vault path is missing or is not a directory.
    NotADirectory(VaultPath),
    /// A file or directory could not be read.
    Io { path: VaultPath, message: String },
}

/// The model of a filesystem failure.
pub enum FsErrorView {
    NotADirectory(PathView),
    Io { path: PathView, message: Seq<char> },
}

impl DeepView for FsError {
    type V = FsErrorView;

    open spec fn deep_view(&self) -> FsErrorView {
        match self {
            FsError::NotADirectory(p) => FsErrorView::NotADirectory(p.deep_view()),
            FsError::Io { path, message } => FsErrorView::Io {
                path: path.deep_view(),
                message: message@,
            },
        }
    }
}

/// A filesystem failure as text.
pub open spec fn fs_error_text(e: FsErrorView) -> Seq<char> {
    match e {
        FsErrorView::NotADirectory(p) => "vault directory not found or not a directory: "@
            + path::display(p),
        FsErrorView::Io { path, message } => "failed to read "@ + path::display(path) + ": "@
            + message,
    }
}

impl FsError {
    /// The failure as text.
    pub fn message(&self) -> (r: String)
        ensures
            r@ == fs_error_text(self.deep_view()),
    {
        match self {
            FsError::NotADirectory(p) => text::concat2(
                "vault directory not found or not a directory: ",
                p.to_text().as_str(),
            ),
            FsError::Io { path, message } => {
                let mut s: String = text::concat2("failed to read ", path.to_text().as_str());
                s.append(": ");
                s.append(message.as_str());
                s
            },
        }
    }
}

/// What a listing of files gave.
pub open spec fn listing_view(r: Result<Vec<VaultPath>, FsError>) -> Result<
    Seq<PathView>,
    FsErrorView,
> {
    match r {
        Ok(v) => Ok(v.deep_view()),
        Err(e) => Err(e.deep_view()),
    }
}

/// What the reading of a file gave.
pub open spec fn read_view(r: Result<String, FsError>) -> Result<Seq<char>, FsErrorView> {
    match r {
        Ok(s) => Ok(s@),
        Err(e) => Err(e.deep_view()),
    }
}

/// Read access to the files of a vault.
///
/// Nothing is promised of a reply: the three relations only name which replies
/// a call can give, so that contracts can say what was asked. Unless an
/// implementation narrows them, every reply is possible.
pub trait FileSystem {
    /// Whether listing `dir` can give the reply.
    open spec fn can_list(&self, dir: PathView, reply: Result<Seq<PathView>, FsErrorView>) -> bool {
        true
    }

    /// Whether reading `path` can give the reply.
    open spec fn can_read(&self, path: PathView, reply: Result<Seq<char>, FsErrorView>) -> bool {
        true
    }

    /// Whether asking for the file at `path` can give the reply.
    open spec fn can_exist(&self, path: PathView, reply: bool) -> bool {
        true
    }

    /// Lists every `.org` file under `dir`, recursively and in any order.
    fn list_org_files(&self, dir: &VaultPath) -> (r: Result<Vec<VaultPath>, FsError>)
        ensures
            self.can_list(dir.deep_view(), listing_view(r)),
    ;

    /// Reads one file as UTF-8 text.
    fn read_to_string(&self, path: &VaultPath) -> (r: Result<String, FsError>)
        ensures
            self.can_read(path.deep_view(), read_view(r)),
    ;

    /// Whether `path` is a regular file.
    fn file_exists(&self, path: &VaultPath) -> (r: bool)
        ensures
            self.can_exist(path.deep_view(), r),
    ;
}

/// A page that was created in Notion.
#[derive(Debug, Clone, PartialEq, Eq)]
pub struct CreatedPage {
    /// The page ID.
    pub id: String,
    /// The URL of the page.
    pub url: String,
}

/// The model of a created page.
pub struct CreatedPageView {
    pub id: Seq<char>,
    pub url: Seq<char>,
}

impl DeepView for CreatedPage {
    type V = CreatedPageView;

    open spec fn deep_view(&self) -> CreatedPageView {
        CreatedPageView { id: self.id@, url: self.url@ }
    }
}

/// One block read back from Notion.
#[derive(Debug, Clone, PartialEq, Eq)]
pub struct ChildBlock {
    /// The block ID.
    pub id: String,
    /// Whether the block has children of its own.
    pub has_children: bool,
    /// The content.
    pub block: Block,
}

/// The model of a block read back.
pub struct ChildBlockView {
    pub id: Seq<char>,
    pub has_children: bool,
    pub block: BlockView,
}

impl DeepView for ChildBlock {
    type V = ChildBlockView;

    open spec fn deep_view(&self) -> ChildBlockView {
        ChildBlockView {
            id: self.id@,
            has_children: self.has_children,
            block: self.block.deep_view(),
        }
    }
}

/// One page of the results of listing a block's children.
#[derive(Debug, Clone, PartialEq, Eq)]
pub struct ChildrenPage {
    /// The blocks of this page of results.
    pub blocks: Vec<ChildBlock>,
    /// The cursor that fetches the next page of results, if there is one.
    pub next_cursor: Option<String>,
}

/// Where appended blocks go.
#[derive(Debug, PartialEq, Eq)]
pub enum AppendPosition {
    /// Behind the last child.
    End,
    /// Behind the child with this ID.
    After { after_id: String },
}

/// The model of a position.
pub enum PositionView {
    End,
    After { after_id: Seq<char> },
}

impl DeepView for AppendPosition {
    type V = PositionView;

    open spec fn deep_view(&self) -> PositionView {
        match self {
            AppendPosition::End => PositionView::End,
            AppendPosition::After { after_id } => PositionView::After { after_id: after_id@ },
        }
    }
}

/// A Notion API failure.
#[derive(Debug, PartialEq, Eq)]
pub enum NotionError {
    /// The request never produced a response.
    Transport(String),
    /// The API returned a status that is no success.
    Api { status: u16, body: String },
    /// The API returned something that could not be interpreted.
    UnexpectedShape(String),
}

/// The model of an API failure.
pub enum NotionErrorView {
    Transport(Seq<char>),
    Api { status: u16, body: Seq<char> },
    UnexpectedShape(Seq<char>),
}

impl DeepView for NotionError {
    type V = NotionErrorView;

    open spec fn deep_view(&self) -> NotionErrorView {
        match self {
            NotionError::Transport(m) => NotionErrorView::Transport(m@),
            NotionError::Api { status, body } => NotionErrorView::Api {
                status: *status,
                body: body@,
            },
            NotionError::UnexpectedShape(m) => NotionErrorView::UnexpectedShape(m@),
        }
    }
}

impl Clone for NotionError {
    fn clone(&self) -> (r: NotionError)
        ensures
            r.deep_view() == self.deep_view(),
    {
        match self {
            NotionError::Transport(m) => NotionError::Transport(m.clone()),
            NotionError::Api { status, body } => NotionError::Api {
                status: *status,
                body: body.clone(),
            },
            NotionError::UnexpectedShape(m) => NotionError::UnexpectedShape(m.clone()),
        }
    }
}

/// What to look at when the API refuses a token.
pub open spec fn hint_text(status: u16) -> Seq<char> {
    if status == 401 || status == 403 {
        "\nCheck that NOTION_TOKEN is a valid integration token and that the parent page has been shared with the integration."@
    } else {
        ""@
    }
}

/// An API failure as text.
pub open spec fn notion_error_text(e: NotionErrorView) -> Seq<char> {
    match e {
        NotionErrorView::Transport(m) => "Notion API request failed: "@ + m,
        NotionErrorView::Api { status, body } => "Notion API returned "@ + text::decimal(
            status as nat,
        ) + ": "@ + body + hint_text(status),
        NotionErrorView::UnexpectedShape(m) => "unexpected response shape from Notion API: "@ + m,
    }
}

fn auth_hint(status: u16) -> (r: &'static str)
    ensures
        r@ == hint_text(status),
{
    if status == 401 || status == 403 {
        "\nCheck that NOTION_TOKEN is a valid integration token and that the parent page has been shared with the integration."
    } else {
        ""
    }
}

impl NotionError {
    /// The failure as text.
    pub fn message(&self) -> (r: String)
        ensures
            r@ == notion_error_text(self.deep_view()),
    {
        match self {
            NotionError::Transport(m) => text::concat2("Notion API request failed: ", m.as_str()),
            NotionError::Api { status, body } => {
                let code: String = text::to_decimal(*status as usize);
                let mut s: String = text::concat2("Notion API returned ", code.as_str());
                s.append(": ");
                s.append(body.as_str());
                s.append(auth_hint(*status));
                s
            },
            NotionError::UnexpectedShape(m) => text::concat2(
                "unexpected response shape from Notion API: ",
                m.as_str(),
            ),
        }
    }
}

} // verus!
