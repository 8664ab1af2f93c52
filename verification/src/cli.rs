//! What the terminal shows of a failed run, and the exit code.

use crate::run;
use crate::run::{RunError, RunErrorView};
use crate::text;
use crate::validate;
use crate::validate::{BrokenLink, BrokenLinkView, PostValidationResult, ResultView};
use vstd::prelude::*;

verus! {

/// The exit code of a failed run: 2 where links are broken, 3 where links were
/// missing afterwards, 1 for everything else.
pub open spec fn exit_code(e: RunErrorView) -> u8 {
    match e {
        RunErrorView::PreValidation(_) => 2,
        RunErrorView::PostValidation { .. } => 3,
        _ => 1,
    }
}

/// The exit code of a failed run.
pub fn exit_code_for(error: &RunError) -> (r: u8)
    ensures
        r == exit_code(error.deep_view()),
{
    match error {
        RunError::PreValidation(_) => 2,
        RunError::PostValidation { .. } => 3,
        _ => 1,
    }
}

/// The lines of the broken links.
pub open spec fn broken_lines(broken: Seq<BrokenLinkView>) -> Seq<char>
    decreases broken.len(),
{
    if broken.len() == 0 {
        Seq::<char>::empty()
    } else {
        broken_lines(broken.drop_last()) + "\n  - "@ + validate::broken_link_text(broken.last())
    }
}

/// A list of texts, each quoted.
pub open spec fn quoted_list(texts: Seq<Seq<char>>) -> Seq<char> {
    "["@ + text::join(texts.map_values(|t: Seq<char>| text::debug_quoted(t)), ", "@) + "]"@
}

/// The lines of the nodes whose links were not all found.
pub open spec fn failure_lines(failures: Seq<ResultView>) -> Seq<char>
    decreases failures.len(),
{
    if failures.len() == 0 {
        Seq::<char>::empty()
    } else {
        let f = failures.last();
        failure_lines(failures.drop_last()) + "\n  - node "@ + f.node_id
            + ": missing mention(s) for "@ + quoted_list(f.missing)
    }
}

/// The warning that an incomplete snapshot was left behind.
pub open spec fn partial_snapshot_text(root_url: Seq<char>) -> Seq<char> {
    "\n\nWARNING: this snapshot is incomplete or failed validation.\nIt was NOT automatically deleted. Root page: "@
        + root_url
        + "\nDelete it manually in Notion, then re-run once the issue is fixed."@
}

/// The whole message of a failed run.
pub open spec fn failure_text(e: RunErrorView) -> Seq<char> {
    "error: "@ + run::run_error_text(e) + match e {
        RunErrorView::PreValidation(broken) => broken_lines(broken),
        RunErrorView::PostValidation { root_url, failures } => failure_lines(failures)
            + partial_snapshot_text(root_url),
        RunErrorView::Api { root_url: Some(url), .. } => partial_snapshot_text(url),
        _ => Seq::<char>::empty(),
    }
}

fn list_broken(broken: &Vec<BrokenLink>) -> (r: String)
    ensures
        r@ == broken_lines(broken.deep_view()),
{
    let ghost all = broken.deep_view();
    let mut out: String = String::new();
    let mut i: usize = 0;
    while i < broken.len()
        invariant
            all == broken.deep_view(),
            i <= broken@.len(),
            out@ == broken_lines(all.take(i as int)),
        decreases broken.len() - i,
    {
        assert(all.take(i + 1).drop_last() =~= all.take(i as int));
        assert(all.take(i + 1).last() == broken[i as int].deep_view());
        out.append("\n  - ");
        out.append(broken[i].message().as_str());
        i = i + 1;
    }
    assert(all.take(i as int) =~= all);
    out
}

fn quote_all(texts: &Vec<String>) -> (r: String)
    ensures
        r@ == quoted_list(texts.deep_view()),
{
    let ghost all = texts.deep_view();
    let ghost target = all.map_values(|t: Seq<char>| text::debug_quoted(t));
    let mut quoted: Vec<String> = Vec::new();
    let mut i: usize = 0;
    while i < texts.len()
        invariant
            all == texts.deep_view(),
            target == all.map_values(|t: Seq<char>| text::debug_quoted(t)),
            i <= texts@.len(),
            quoted.deep_view() == target.take(i as int),
        decreases texts.len() - i,
    {
        let ghost before = quoted.deep_view();
        assert(all[i as int] == texts[i as int]@);
        let q: String = text::debug_quote(texts[i].as_str());
        quoted.push(q);
        assert(quoted.deep_view() =~= before.push(q@));
        i = i + 1;
    }
    assert(target.take(i as int) =~= target);
    let mut out: String = text::concat2("[", text::joined(&quoted, ", ").as_str());
    out.append("]");
    out
}

fn list_failures(failures: &Vec<PostValidationResult>) -> (r: String)
    ensures
        r@ == failure_lines(failures.deep_view()),
{
    let ghost all = failures.deep_view();
    let mut out: String = String::new();
    let mut i: usize = 0;
    while i < failures.len()
        invariant
            all == failures.deep_view(),
            i <= failures@.len(),
            out@ == failure_lines(all.take(i as int)),
        decreases failures.len() - i,
    {
        assert(all.take(i + 1).drop_last() =~= all.take(i as int));
        assert(all.take(i + 1).last() == failures[i as int].deep_view());
        out.append("\n  - node ");
        out.append(failures[i].node_id.as_str());
        out.append(": missing mention(s) for ");
        out.append(quote_all(&failures[i].missing).as_str());
        i = i + 1;
    }
    assert(all.take(i as int) =~= all);
    out
}

fn partial_snapshot_warning(root_url: &str) -> (r: String)
    ensures
        r@ == partial_snapshot_text(root_url@),
{
    let mut s: String = text::concat2(
        "\n\nWARNING: this snapshot is incomplete or failed validation.\nIt was NOT automatically deleted. Root page: ",
        root_url,
    );
    s.append("\nDelete it manually in Notion, then re-run once the issue is fixed.");
    s
}

/// The whole message of a failed run: what went wrong, the links concerned,
/// and a warning where a snapshot was left behind.
pub fn render_failure(error: &RunError) -> (r: String)
    ensures
        r@ == failure_text(error.deep_view()),
{
    let mut out: String = text::concat2("error: ", error.message().as_str());
    match error {
        RunError::PreValidation(broken) => {
            out.append(list_broken(broken).as_str());
        },
        RunError::PostValidation { root_url, failures } => {
            out.append(list_failures(failures).as_str());
            out.append(partial_snapshot_warning(root_url.as_str()).as_str());
            assert(out@ =~= failure_text(error.deep_view()));
        },
        RunError::Api { context: _, source: _, root_url: Some(url) } => {
            out.append(partial_snapshot_warning(url.as_str()).as_str());
        },
        _ => {
            assert(out@ =~= failure_text(error.deep_view()));
        },
    }
    out
}

} // verus!
