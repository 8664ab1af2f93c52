//! What is told of failures and of progress, word for word.

use crate::cli;
use crate::client;
use crate::content;
use crate::converter;
use crate::notion;
use crate::org_parser;
use crate::org_parser::NodeView;
use crate::pages;
use crate::pages::PageCreation;
use crate::path;
use crate::path::PathView;
use crate::ports;
use crate::ports::{FsErrorView, NotionErrorView};
use crate::run;
use crate::run::RunErrorView;
use crate::text;
use crate::validate::{BrokenLinkView, ResultView};
use crate::vault;
use crate::vault::{ProblemView, VaultErrorView};
use vstd::prelude::*;

verus! {

/// Notion takes 2000 characters in a run, a hundred runs in a block and a hundred
/// blocks in a request. A call is made five times at most, and the first delay is
/// 300 milliseconds.
pub proof fn law_limits()
    ensures
        converter::MAX_TEXT_LEN == 2000,
        converter::MAX_RICH_TEXT_ITEMS == 100,
        notion::MAX_CHILDREN_PER_REQUEST == 100,
        client::MAX_ATTEMPTS == 5,
        client::BACKOFF_BASE_MS == 300,
        client::API_BASE@ == "https://api.notion.com/v1"@,
        notion::NOTION_VERSION@ == "2026-03-11"@,
        run::TOKEN_ENV_VAR@ == "NOTION_TOKEN"@,
        run::PARENT_PAGE_ID_ENV_VAR@ == "ORGNOTION_PARENT_PAGE_ID"@,
{
}

/// A file or a directory that fails a scan is named, with what is wrong.
pub proof fn law_scan_failures_are_named(
    p: PathView,
    message: Seq<char>,
    id: Seq<char>,
    first: Seq<char>,
    second: Seq<char>,
    problem: ProblemView,
)
    ensures
        vault::vault_error_text(VaultErrorView::Fs(FsErrorView::NotADirectory(p)))
            == "vault directory not found or not a directory: "@ + path::display(p),
        vault::vault_error_text(VaultErrorView::Fs(FsErrorView::Io { path: p, message }))
            == "failed to read "@ + path::display(p) + ": "@ + message,
        vault::vault_error_text(VaultErrorView::TooLong(p)) == path::display(p)
            + ": file is longer than 4294967295 bytes"@,
        vault::vault_error_text(VaultErrorView::MissingId(p)) == path::display(p)
            + ": missing :ID: property (or #+ID: keyword) in file preamble"@,
        org_parser::missing_id_message(p) == path::display(p)
            + ": missing :ID: property (or #+ID: keyword) in file preamble"@,
        vault::vault_error_text(VaultErrorView::DuplicateId { id, first, second })
            == "duplicate org-roam ID "@ + text::debug_quoted(id) + " found in both "@ + first
            + " and "@ + second + " — IDs must be unique across the vault"@,
        vault::vault_error_text(VaultErrorView::InvalidIndex { path: p, problem })
            == path::display(p) + ": "@ + vault::problem_text(problem),
        ports::fs_error_text(FsErrorView::NotADirectory(p))
            == "vault directory not found or not a directory: "@ + path::display(p),
        ports::fs_error_text(FsErrorView::Io { path: p, message }) == "failed to read "@
            + path::display(p) + ": "@ + message,
{
}

/// What is wrong with an index file is told with the words that are wrong.
pub proof fn law_index_problems_are_told(x: Seq<char>)
    ensures
        vault::problem_text(ProblemView::MissingFile) == "missing the index node's file path"@,
        vault::problem_text(ProblemView::MissingFlat)
            == "missing the \"flat = true\" or \"flat = false\" line"@,
        vault::problem_text(ProblemView::BadFlat { value: x })
            == "the value of \"flat\" must be true or false, not "@ + text::debug_quoted(x),
        vault::problem_text(ProblemView::UnknownOption { key: x }) == "unknown option "@
            + text::debug_quoted(x),
        vault::problem_text(ProblemView::RepeatedFlat) == "\"flat\" is given more than once"@,
        vault::problem_text(ProblemView::RepeatedFile) == "more than one file path is given"@,
        vault::problem_text(ProblemView::NotANode { name: x }) == text::debug_quoted(x)
            + " is not an .org node file in this directory"@,
{
}

/// What Notion answered is told with its status and text; where it refuses the
/// token, what to look at is told too.
pub proof fn law_notion_failures_are_told(status: u16, m: Seq<char>)
    ensures
        ports::notion_error_text(NotionErrorView::Transport(m)) == "Notion API request failed: "@
            + m,
        ports::notion_error_text(NotionErrorView::UnexpectedShape(m))
            == "unexpected response shape from Notion API: "@ + m,
        status != 401 && status != 403 ==> ports::notion_error_text(
            NotionErrorView::Api { status, body: m },
        ) == "Notion API returned "@ + text::decimal(status as nat) + ": "@ + m,
        status == 401 || status == 403 ==> ports::notion_error_text(
            NotionErrorView::Api { status, body: m },
        ) == "Notion API returned "@ + text::decimal(status as nat) + ": "@ + m
            + "\nCheck that NOTION_TOKEN is a valid integration token and that the parent page has been shared with the integration."@,
{
    reveal_strlit("");
    let t = "Notion API returned "@ + text::decimal(status as nat) + ": "@ + m;
    assert(t + ""@ =~= t);
}

/// Why a run failed is told in one sentence, with how many links or nodes it is
/// about.
pub proof fn law_run_failures_are_told(
    broken: Seq<BrokenLinkView>,
    failures: Seq<ResultView>,
    url: Seq<char>,
    e: VaultErrorView,
    missing: Seq<Seq<char>>,
)
    ensures
        run::run_error_text(RunErrorView::Vault(e)) == vault::vault_error_text(e),
        run::run_error_text(RunErrorView::PreValidation(broken)) == "pre-validation failed: "@
            + text::decimal(broken.len()) + " broken link(s); nothing was written to Notion"@,
        run::run_error_text(RunErrorView::PostValidation { root_url: url, failures })
            == "post-validation failed for "@ + text::decimal(failures.len()) + " node(s)"@,
        run::run_error_text(RunErrorView::MissingParentPageId)
            == "no parent page ID: pass --parent-page-id or set the ORGNOTION_PARENT_PAGE_ID environment variable"@,
        run::run_error_text(RunErrorView::MissingToken)
            == "NOTION_TOKEN environment variable is not set. Create a Notion internal integration, copy its token, and export it as NOTION_TOKEN."@,
        cli::partial_snapshot_text(url)
            == "\n\nWARNING: this snapshot is incomplete or failed validation.\nIt was NOT automatically deleted. Root page: "@
            + url + "\nDelete it manually in Notion, then re-run once the issue is fixed."@,
        cli::quoted_list(missing) == "["@ + text::join(
            missing.map_values(|t: Seq<char>| text::debug_quoted(t)),
            ", "@,
        ) + "]"@,
        cli::failure_text(RunErrorView::Vault(e)) == "error: "@ + vault::vault_error_text(e),
        cli::failure_text(RunErrorView::MissingParentPageId) == "error: "@ + run::run_error_text(
            RunErrorView::MissingParentPageId,
        ),
        cli::failure_text(RunErrorView::MissingToken) == "error: "@ + run::run_error_text(
            RunErrorView::MissingToken,
        ),
        cli::broken_lines(Seq::<BrokenLinkView>::empty()).len() == 0,
        cli::failure_lines(Seq::<ResultView>::empty()).len() == 0,
{
    let nothing = Seq::<char>::empty();
    let told = "error: "@ + vault::vault_error_text(e);
    assert(told + nothing =~= told);
    let no_page = "error: "@ + run::run_error_text(RunErrorView::MissingParentPageId);
    assert(no_page + nothing =~= no_page);
    let no_token = "error: "@ + run::run_error_text(RunErrorView::MissingToken);
    assert(no_token + nothing =~= no_token);
}

/// What failed to be written is told with the title of its node.
pub proof fn law_write_failures_are_told(title: Seq<char>)
    ensures
        content::write_failure_text(true, title) == "failed to write heading for node "@
            + text::debug_quoted(title),
        content::write_failure_text(false, title) == "failed to write content for node "@
            + text::debug_quoted(title),
{
}

/// A page that could not be created is told by the directory or the node that it
/// is for.
pub proof fn law_page_failures_are_told(
    v: vault::VaultView,
    dirs: Seq<PathView>,
    d: PathView,
    n: NodeView,
    root: PathView,
    title: Seq<char>,
)
    ensures
        pages::root_page(title).context == "failed to create the snapshot root page"@,
        pages::planned_dir(v, dirs, d).context == "failed to create the page for directory \""@
            + path::display(d) + "\""@,
        pages::planned_node(dirs, n, root).context == "failed to create the page for node "@
            + text::debug_quoted(n.title),
{
}

/// Progress is told where it is made: before the root page, when it is there and
/// the directories' pages come, and when the nodes' pages come; nowhere else.
pub proof fn law_progress_is_told(c: PageCreation)
    requires
        c.plan.pages@.len() > 0,
        c.created@.len() <= c.plan.pages@.len(),
    ensures
        ({
            let k = c.created@.len();
            let dirs = c.plan.dir_count;
            let own = "Creating "@ + text::decimal(c.plan.paged_count as nat);
            let nodes = if c.plan.on_dir_count == 0 {
                own + " node page(s)..."@
            } else {
                own + " node page(s) ("@ + text::decimal(c.plan.on_dir_count as nat)
                    + " node(s) rendered on "@ + text::decimal(c.plan.index_count as nat)
                    + " directory page(s))..."@
            };
            let there = "Root page created: "@ + c.created@[0].url@;
            let coming = "Creating "@ + text::decimal(dirs as nat) + " directory page(s)..."@;
            &&& k == 0 ==> pages::creation_lines(c) == seq![
                "Creating snapshot root page \""@ + c.plan.pages@[0].title@ + "\"..."@,
            ]
            &&& k == 1 && dirs > 0 ==> pages::creation_lines(c) == seq![there, coming]
            &&& k == 1 && dirs == 0 ==> pages::creation_lines(c) == seq![there, coming, nodes]
            &&& k > 1 && k == 1 + dirs ==> pages::creation_lines(c) == seq![nodes]
            &&& k > 1 && k != 1 + dirs ==> pages::creation_lines(c).len() == 0
        }),
{
    if c.created@.len() == 1 && c.plan.dir_count == 0 {
        let all = pages::creation_lines(c);
        assert(all =~= seq![all[0], all[1], all[2]]);
    }
}

} // verus!
