//! A whole run: what is decided before Notion is called, what is reported on
//! the way, and how a run can fail.

use crate::layout;
use crate::path::{PathView, VaultPath};
use crate::ports;
use crate::ports::{NotionError, NotionErrorView};
use crate::text;
use crate::validate;
use crate::validate::{BrokenLink, BrokenLinkView, PostValidationResult, ResultView};
use crate::vault;
use crate::vault::{Vault, VaultError, VaultErrorView, VaultView};
use vstd::prelude::*;

verus! {

/// The environment variable that holds the Notion token.
pub const TOKEN_ENV_VAR: &'static str = "NOTION_TOKEN";

/// The environment variable that stands in for the parent page option.
pub const PARENT_PAGE_ID_ENV_VAR: &'static str = "ORGNOTION_PARENT_PAGE_ID";

/// What a run is asked to do.
pub struct RunConfig {
    /// The vault directory.
    pub vault_dir: VaultPath,
    /// The page to publish under, if it was given.
    pub parent_page_id: Option<String>,
    /// The title of the root page, if it was given.
    pub title: Option<String>,
    /// Whether to stop after validation and write nothing.
    pub dry_run: bool,
    /// How many API calls may be in flight at once. Pages are created one
    /// after another all the same, since Notion shows them in that order.
    pub concurrency: usize,
}

/// Why a run failed.
#[derive(Debug, PartialEq, Eq)]
pub enum RunError {
    /// The vault could not be scanned.
    Vault(VaultError),
    /// Links are broken; nothing was written.
    PreValidation(Vec<BrokenLink>),
    /// There is no page to publish under.
    MissingParentPageId,
    /// There is no token.
    MissingToken,
    /// An API call failed. Where a root URL is given, the snapshot is
    /// incomplete.
    Api { context: String, source: NotionError, root_url: Option<String> },
    /// Links were missing when the content was read back.
    PostValidation { root_url: String, failures: Vec<PostValidationResult> },
}

/// The model of a failed run.
pub enum RunErrorView {
    Vault(VaultErrorView),
    PreValidation(Seq<BrokenLinkView>),
    MissingParentPageId,
    MissingToken,
    Api { context: Seq<char>, source: NotionErrorView, root_url: Option<Seq<char>> },
    PostValidation { root_url: Seq<char>, failures: Seq<ResultView> },
}

impl DeepView for RunError {
    type V = RunErrorView;

    open spec fn deep_view(&self) -> RunErrorView {
        match self {
            RunError::Vault(e) => RunErrorView::Vault(e.deep_view()),
            RunError::PreValidation(broken) => RunErrorView::PreValidation(broken.deep_view()),
            RunError::MissingParentPageId => RunErrorView::MissingParentPageId,
            RunError::MissingToken => RunErrorView::MissingToken,
            RunError::Api { context, source, root_url } => RunErrorView::Api {
                context: context@,
                source: source.deep_view(),
                root_url: root_url.deep_view(),
            },
            RunError::PostValidation { root_url, failures } => RunErrorView::PostValidation {
                root_url: root_url@,
                failures: failures.deep_view(),
            },
        }
    }
}

/// A failed run as text.
pub open spec fn run_error_text(e: RunErrorView) -> Seq<char> {
    match e {
        RunErrorView::Vault(v) => vault::vault_error_text(v),
        RunErrorView::PreValidation(broken) => "pre-validation failed: "@ + text::decimal(
            broken.len(),
        ) + " broken link(s); nothing was written to Notion"@,
        RunErrorView::MissingParentPageId =>
            "no parent page ID: pass --parent-page-id or set the ORGNOTION_PARENT_PAGE_ID environment variable"@,
        RunErrorView::MissingToken =>
            "NOTION_TOKEN environment variable is not set. Create a Notion internal integration, copy its token, and export it as NOTION_TOKEN."@,
        RunErrorView::Api { context, source, root_url: _ } => context + ": "@
            + ports::notion_error_text(source),
        RunErrorView::PostValidation { root_url: _, failures } => "post-validation failed for "@
            + text::decimal(failures.len()) + " node(s)"@,
    }
}

impl RunError {
    /// The failure as text.
    pub fn message(&self) -> (r: String)
        ensures
            r@ == run_error_text(self.deep_view()),
    {
        match self {
            RunError::Vault(e) => e.message(),
            RunError::PreValidation(broken) => {
                let mut s: String = text::concat2(
                    "pre-validation failed: ",
                    text::to_decimal(broken.len()).as_str(),
                );
                s.append(" broken link(s); nothing was written to Notion");
                s
            },
            RunError::MissingParentPageId =>
                "no parent page ID: pass --parent-page-id or set the ORGNOTION_PARENT_PAGE_ID environment variable".to_owned(),
            RunError::MissingToken =>
                "NOTION_TOKEN environment variable is not set. Create a Notion internal integration, copy its token, and export it as NOTION_TOKEN.".to_owned(),
            RunError::Api { context, source, root_url: _ } => {
                let mut s: String = text::concat2(context.as_str(), ": ");
                s.append(source.message().as_str());
                s
            },
            RunError::PostValidation { root_url: _, failures } => {
                let mut s: String = text::concat2(
                    "post-validation failed for ",
                    text::to_decimal(failures.len()).as_str(),
                );
                s.append(" node(s)");
                s
            },
        }
    }
}

/// What a run that succeeded did.
#[derive(Debug, Clone, PartialEq, Eq)]
pub struct RunReport {
    /// The number of nodes.
    pub node_count: usize,
    /// The number of content blocks written; none in a dry run.
    pub block_count: usize,
    /// The URL of the root page; none in a dry run.
    pub root_url: Option<String>,
}

// ---------------------------------------------------------------------
// Before Notion is called
// ---------------------------------------------------------------------

/// What follows when the vault has been scanned.
#[derive(Debug, PartialEq, Eq)]
pub enum Start {
    /// A dry run: it is over.
    Done(RunReport),
    /// The snapshot is published under this page with this title.
    Publish { parent_page_id: String, title: String, concurrency: usize },
}

/// What is decided when the vault has been scanned, and what is reported.
pub struct Started {
    pub lines: Vec<String>,
    pub outcome: Result<Start, RunError>,
}

/// The page to publish under.
pub open spec fn parent_page(given: Option<Seq<char>>, from_env: Option<Seq<char>>) -> Option<
    Seq<char>,
> {
    match given {
        Some(id) => Some(id),
        None => from_env,
    }
}

/// The title of the root page.
pub open spec fn snapshot_title(given: Option<Seq<char>>, now: Seq<char>) -> Seq<char> {
    match given {
        Some(t) => t,
        None => "Org-roam snapshot "@ + now,
    }
}

/// The line that says how many nodes were found.
pub open spec fn found_line(n: nat) -> Seq<char> {
    "Found "@ + text::decimal(n) + " node(s)."@
}

/// The broken links of a vault.
pub open spec fn broken_links(v: VaultView) -> Seq<BrokenLinkView> {
    validate::all_broken(v.nodes, v.nodes)
}

/// The lines that are reported before anything is written.
pub open spec fn start_lines(v: VaultView, root: PathView, dry_run: bool) -> Seq<Seq<char>> {
    let checking = seq![found_line(v.nodes.len()), "Pre-validating internal links..."@];
    if broken_links(v).len() > 0 {
        checking
    } else if dry_run {
        checking + seq![
            "All links resolve locally."@,
            ""@,
            "Dry run: vault is valid and ready to publish. Planned structure:"@,
        ] + layout::tree_lines(v, root, v.nodes.len() as int) + seq![
            "Nothing was written to Notion."@,
        ]
    } else {
        checking + seq!["All links resolve locally."@]
    }
}

fn push_line(lines: &mut Vec<String>, line: &str)
    ensures
        final(lines).deep_view() == old(lines).deep_view().push(line@),
{
    let ghost before = lines.deep_view();
    lines.push(line.to_owned());
    assert(lines.deep_view() =~= before.push(line@));
}

fn count_line(before: &str, n: usize, after: &str) -> (r: String)
    ensures
        r@ == before@ + text::decimal(n as nat) + after@,
{
    let mut s: String = text::concat2(before, text::to_decimal(n).as_str());
    s.append(after);
    s
}

/// The line that says which vault is scanned. `vault_dir` is the directory as
/// it was given.
pub fn scanning_line(vault_dir: &str) -> (r: String)
    ensures
        r@ == "Scanning vault: "@ + vault_dir@,
{
    text::concat2("Scanning vault: ", vault_dir)
}

/// Decides what follows when the vault has been scanned: links that do not
/// resolve end the run, and so does a dry run; else the snapshot is published,
/// if there is a page to publish under. `env_parent` is what the environment
/// holds for that page, and `now` the time.
pub fn start(
    config: &RunConfig,
    v: &Vault,
    env_parent: Option<String>,
    now: &str,
) -> (r: Started)
    ensures
        r.lines.deep_view() == start_lines(
            v.deep_view(),
            config.vault_dir.deep_view(),
            config.dry_run,
        ),
        match r.outcome {
            Err(RunError::PreValidation(broken)) => broken_links(v.deep_view()).len() > 0
                && broken.deep_view() == broken_links(v.deep_view()),
            Err(RunError::MissingParentPageId) => broken_links(v.deep_view()).len() == 0
                && !config.dry_run && parent_page(
                config.parent_page_id.deep_view(),
                env_parent.deep_view(),
            ) is None,
            Err(_) => false,
            Ok(Start::Done(report)) => {
                &&& broken_links(v.deep_view()).len() == 0
                &&& config.dry_run
                &&& report.node_count == v.nodes@.len()
                &&& report.block_count == 0
                &&& report.root_url is None
            },
            Ok(Start::Publish { parent_page_id, title, concurrency }) => {
                &&& broken_links(v.deep_view()).len() == 0
                &&& !config.dry_run
                &&& parent_page(config.parent_page_id.deep_view(), env_parent.deep_view()) == Some(
                    parent_page_id@,
                )
                &&& title@ == snapshot_title(config.title.deep_view(), now@)
                &&& concurrency == (if config.concurrency == 0 {
                    1
                } else {
                    config.concurrency
                })
            },
        },
{
    let ghost vv = v.deep_view();
    let mut lines: Vec<String> = Vec::new();
    lines.push(count_line("Found ", v.nodes.len(), " node(s)."));
    push_line(&mut lines, "Pre-validating internal links...");
    let ghost checking = seq![found_line(vv.nodes.len()), "Pre-validating internal links..."@];
    assert(lines.deep_view() =~= checking);
    match validate::pre_validate(v) {
        Err(broken) => {
            return Started { lines, outcome: Err(RunError::PreValidation(broken)) };
        },
        Ok(_) => {},
    }
    push_line(&mut lines, "All links resolve locally.");
    if config.dry_run {
        push_line(&mut lines, "");
        push_line(&mut lines, "Dry run: vault is valid and ready to publish. Planned structure:");
        let ghost head = lines.deep_view();
        let mut tree: Vec<String> = layout::planned_tree(v, &config.vault_dir);
        let ghost planned = tree.deep_view();
        lines.append(&mut tree);
        assert(lines.deep_view() =~= head + planned);
        push_line(&mut lines, "Nothing was written to Notion.");
        assert(lines.deep_view() =~= start_lines(vv, config.vault_dir.deep_view(), true));
        let report: RunReport = RunReport {
            node_count: v.nodes.len(),
            block_count: 0,
            root_url: None,
        };
        return Started { lines, outcome: Ok(Start::Done(report)) };
    }
    assert(lines.deep_view() =~= start_lines(vv, config.vault_dir.deep_view(), false));
    let parent: Option<String> = match &config.parent_page_id {
        Some(id) => Some(id.clone()),
        None => env_parent,
    };
    match parent {
        None => Started { lines, outcome: Err(RunError::MissingParentPageId) },
        Some(parent_page_id) => {
            let title: String = match &config.title {
                Some(t) => t.clone(),
                None => text::concat2("Org-roam snapshot ", now),
            };
            let concurrency: usize = if config.concurrency == 0 {
                1
            } else {
                config.concurrency
            };
            Started { lines, outcome: Ok(Start::Publish { parent_page_id, title, concurrency }) }
        },
    }
}

/// The token to call Notion with. A dry run calls nothing and needs none.
pub fn require_token(dry_run: bool, token: Option<String>) -> (r: Result<String, RunError>)
    ensures
        match r {
            Ok(t) => if dry_run {
                t@ == ""@
            } else {
                token.deep_view() == Some(t@)
            },
            Err(e) => !dry_run && token is None && e == RunError::MissingToken,
        },
{
    if dry_run {
        return Ok("".to_owned());
    }
    match token {
        Some(t) => Ok(t),
        None => Err(RunError::MissingToken),
    }
}

/// The lines that are reported when a snapshot was published.
pub open spec fn summary_lines(
    nodes: nat,
    blocks: nat,
    elapsed_secs: Seq<char>,
    root_url: Option<Seq<char>>,
) -> Seq<Seq<char>> {
    seq![
        ""@,
        "Snapshot published and fully validated: "@ + text::decimal(nodes) + " node(s), "@
            + text::decimal(blocks) + " block(s), "@ + elapsed_secs + "s elapsed."@,
        "Root page: "@ + match root_url {
            Some(url) => url,
            None => ""@,
        },
    ]
}

/// The lines that are reported when a snapshot was published. `elapsed_secs`
/// is the time taken, as it is to be shown.
pub fn summary(report: &RunReport, elapsed_secs: &str) -> (r: Vec<String>)
    ensures
        r.deep_view() == summary_lines(
            report.node_count as nat,
            report.block_count as nat,
            elapsed_secs@,
            report.root_url.deep_view(),
        ),
{
    let mut lines: Vec<String> = Vec::new();
    push_line(&mut lines, "");
    let mut s: String = count_line(
        "Snapshot published and fully validated: ",
        report.node_count,
        " node(s), ",
    );
    s.append(text::to_decimal(report.block_count).as_str());
    s.append(" block(s), ");
    s.append(elapsed_secs);
    s.append("s elapsed.");
    push_line(&mut lines, s.as_str());
    let url: &str = match &report.root_url {
        Some(u) => u.as_str(),
        None => "",
    };
    push_line(&mut lines, text::concat2("Root page: ", url).as_str());
    assert(lines.deep_view() =~= summary_lines(
        report.node_count as nat,
        report.block_count as nat,
        elapsed_secs@,
        report.root_url.deep_view(),
    ));
    lines
}

} // verus!
