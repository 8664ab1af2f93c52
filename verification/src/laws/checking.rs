//! What is checked, retried and reported, said of the links, replies and texts
//! themselves.

use crate::blocks;
use crate::blocks::{MentionView, RichTextView};
use crate::cli;
use crate::client;
use crate::client::{Delay, FailureView};
use crate::content;
use crate::converter::{LinkMapView, LinkTargetView};
use crate::laws::texts;
use crate::layout;
use crate::org_parser::NodeView;
use crate::path;
use crate::path::PathView;
use crate::ports;
use crate::ports::{ChildBlockView, NotionErrorView};
use crate::run;
use crate::run::RunErrorView;
use crate::text;
use crate::validate;
use crate::validate::{BrokenLinkView, FoundView, ResultView};
use crate::vault::VaultView;
use vstd::arithmetic::power2;
use vstd::prelude::*;

verus! {

// ---------------------------------------------------------------------
// Links before
// ---------------------------------------------------------------------

/// Whether some node has the ID.
pub open spec fn is_id_of_a_node(nodes: Seq<NodeView>, id: Seq<char>) -> bool {
    exists|i: int| 0 <= i < nodes.len() && (#[trigger] nodes[i]).id == id
}

proof fn lemma_known(nodes: Seq<NodeView>, id: Seq<char>)
    ensures
        validate::known(nodes, id) <==> is_id_of_a_node(nodes, id),
{
    if validate::known(nodes, id) {
        let i = choose|i: int| 0 <= i < nodes.len() && #[trigger] nodes[i].id == id;
        let n = nodes[i];
        assert(n.id == id);
    }
    if is_id_of_a_node(nodes, id) {
        let i = choose|i: int| 0 <= i < nodes.len() && (#[trigger] nodes[i]).id == id;
        assert(nodes[i].id == id);
    }
}

/// The broken links of a node are those of its links that are the ID of no node,
/// in order, each with the node's ID and file.
pub proof fn law_broken_links_of_node(nodes: Seq<NodeView>, n: NodeView, links: Seq<Seq<char>>)
    ensures
        validate::broken_of(nodes, n, links) == links.filter(
            |id: Seq<char>| !is_id_of_a_node(nodes, id),
        ).map_values(
            |id: Seq<char>|
                BrokenLinkView {
                    source_node_id: n.id,
                    source_file: path::display(n.file_path),
                    target_id: id,
                },
        ),
    decreases links.len(),
{
    reveal(Seq::filter);
    let f = |id: Seq<char>| !is_id_of_a_node(nodes, id);
    let g = |id: Seq<char>|
        BrokenLinkView {
            source_node_id: n.id,
            source_file: path::display(n.file_path),
            target_id: id,
        };
    if links.len() > 0 {
        law_broken_links_of_node(nodes, n, links.drop_last());
        lemma_known(nodes, links.last());
        assert(validate::broken_of(nodes, n, links) =~= links.filter(f).map_values(g));
    } else {
        assert(validate::broken_of(nodes, n, links) =~= links.filter(f).map_values(g));
    }
}

/// The broken links of a vault are those of all its nodes, node by node.
pub proof fn law_broken_links_of_vault(
    nodes: Seq<NodeView>,
    a: Seq<NodeView>,
    b: Seq<NodeView>,
    n: NodeView,
    v: VaultView,
)
    ensures
        validate::all_broken(nodes, a + b) == validate::all_broken(nodes, a) + validate::all_broken(
            nodes,
            b,
        ),
        validate::all_broken(nodes, seq![n]) == validate::broken_of(nodes, n, n.links),
        run::broken_links(v) == validate::all_broken(v.nodes, v.nodes),
    decreases b.len(),
{
    assert(seq![n].drop_last() =~= Seq::<NodeView>::empty());
    assert(validate::all_broken(nodes, seq![n].drop_last()) =~= Seq::<BrokenLinkView>::empty());
    assert(validate::all_broken(nodes, seq![n]) =~= validate::broken_of(nodes, n, n.links));
    if b.len() == 0 {
        assert(a + b =~= a);
        assert(validate::all_broken(nodes, a + b) =~= validate::all_broken(nodes, a)
            + validate::all_broken(nodes, b));
    } else {
        law_broken_links_of_vault(nodes, a, b.drop_last(), n, v);
        assert((a + b).drop_last() =~= a + b.drop_last());
        assert((a + b).last() == b.last());
        assert(validate::all_broken(nodes, a + b) =~= validate::all_broken(nodes, a)
            + validate::all_broken(nodes, b));
    }
}

// ---------------------------------------------------------------------
// Links after
// ---------------------------------------------------------------------

/// A link is there exactly if its ID is known, and the page that it has to
/// mention was found among the mentions, or the URL that it has to link to among
/// the links.
pub proof fn law_link_is_there(
    id: Seq<char>,
    links: LinkMapView,
    found: FoundView,
    page_id: Seq<char>,
    url: Seq<char>,
    shown: Seq<char>,
)
    ensures
        !links.dom().contains(id) ==> !validate::link_present(id, links, found),
        links.dom().contains(id) && links[id] == LinkTargetView::Page(page_id) ==> (
        validate::link_present(id, links, found) <==> found.page_ids.contains(page_id)),
        links.dom().contains(id) && links[id] == (LinkTargetView::Block {
            page_id,
            url,
            text: shown,
        }) ==> (validate::link_present(id, links, found) <==> found.link_urls.contains(url)),
        validate::target_page(LinkTargetView::Page(page_id)) == page_id,
        validate::target_page(LinkTargetView::Block { page_id, url, text: shown }) == page_id,
{
}

/// What is found on blocks is what is found on each of them. On a block it is the
/// pages that runs of its text mention and the URLs that runs of its text link
/// to; where it has no inline text, nothing.
pub proof fn law_links_on_blocks(
    a: Seq<ChildBlockView>,
    b: Seq<ChildBlockView>,
    c: ChildBlockView,
    runs: Seq<RichTextView>,
    x: Seq<char>,
)
    requires
        blocks::inline_text(c.block) == Some(runs) || (blocks::inline_text(c.block) is None
            && runs.len() == 0),
    ensures
        validate::found_on(a + b).page_ids == validate::found_on(a).page_ids
            + validate::found_on(b).page_ids,
        validate::found_on(a + b).link_urls == validate::found_on(a).link_urls
            + validate::found_on(b).link_urls,
        validate::found_on(seq![c]).page_ids.contains(x) <==> exists|j: int|
            0 <= j < runs.len() && (#[trigger] runs[j] matches RichTextView::Mention {
                mention: MentionView::Page { id },
                ..
            } && id == x),
        validate::found_on(seq![c]).link_urls.contains(x) <==> exists|j: int|
            0 <= j < runs.len() && (#[trigger] runs[j] matches RichTextView::Text { link, .. }
                && link == Some(x)),
{
    let none = FoundView {
        page_ids: Set::<Seq<char>>::empty(),
        link_urls: Set::<Seq<char>>::empty(),
    };
    lemma_found_on(a, b);
    assert(seq![c].drop_last() =~= Seq::<ChildBlockView>::empty());
    assert(validate::found_on(seq![c].drop_last()) == none);
    assert(validate::found_on(seq![c]) == validate::with_runs(none, runs));
    lemma_found_in_runs(none, runs, x);
}

proof fn lemma_found_in_runs(f: FoundView, runs: Seq<RichTextView>, x: Seq<char>)
    ensures
        validate::with_runs(f, runs).page_ids.contains(x) <==> f.page_ids.contains(x) || exists|
            j: int,
        |
            0 <= j < runs.len() && (#[trigger] runs[j] matches RichTextView::Mention {
                mention: MentionView::Page { id },
                ..
            } && id == x),
        validate::with_runs(f, runs).link_urls.contains(x) <==> f.link_urls.contains(x) || exists|
            j: int,
        |
            0 <= j < runs.len() && (#[trigger] runs[j] matches RichTextView::Text { link, .. }
                && link == Some(x)),
    decreases runs.len(),
{
    if runs.len() > 0 {
        let h = runs.drop_last();
        lemma_found_in_runs(f, h, x);
        assert(runs[runs.len() - 1] == runs.last());
        assert forall|j: int| 0 <= j < h.len() implies #[trigger] h[j] == runs[j] by {}
        assert forall|j: int| 0 <= j < h.len() implies #[trigger] runs[j] == h[j] by {}
    }
}

proof fn lemma_found_grows(f: FoundView, g: FoundView, runs: Seq<RichTextView>)
    ensures
        validate::with_runs(
            FoundView {
                page_ids: f.page_ids + g.page_ids,
                link_urls: f.link_urls + g.link_urls,
            },
            runs,
        ) == (FoundView {
            page_ids: f.page_ids + validate::with_runs(g, runs).page_ids,
            link_urls: f.link_urls + validate::with_runs(g, runs).link_urls,
        }),
    decreases runs.len(),
{
    let both = FoundView {
        page_ids: f.page_ids + g.page_ids,
        link_urls: f.link_urls + g.link_urls,
    };
    let after = FoundView {
        page_ids: f.page_ids + validate::with_runs(g, runs).page_ids,
        link_urls: f.link_urls + validate::with_runs(g, runs).link_urls,
    };
    if runs.len() > 0 {
        lemma_found_grows(f, g, runs.drop_last());
    }
    assert(validate::with_runs(both, runs) =~= after);
}

proof fn lemma_found_on(a: Seq<ChildBlockView>, b: Seq<ChildBlockView>)
    ensures
        validate::found_on(a + b) == (FoundView {
            page_ids: validate::found_on(a).page_ids + validate::found_on(b).page_ids,
            link_urls: validate::found_on(a).link_urls + validate::found_on(b).link_urls,
        }),
    decreases b.len(),
{
    let both = FoundView {
        page_ids: validate::found_on(a).page_ids + validate::found_on(b).page_ids,
        link_urls: validate::found_on(a).link_urls + validate::found_on(b).link_urls,
    };
    if b.len() == 0 {
        assert(a + b =~= a);
        assert(validate::found_on(a + b) =~= both);
    } else {
        let h = b.drop_last();
        lemma_found_on(a, h);
        assert((a + b).drop_last() =~= a + h);
        assert((a + b).last() == b.last());
        if let Some(runs) = blocks::inline_text(b.last().block) {
            lemma_found_grows(validate::found_on(a), validate::found_on(h), runs);
        }
        assert(validate::found_on(a + b) =~= both);
    }
}

/// What is missing of a node is those of its links that are not there, in order.
pub proof fn law_missing_links_in_order(
    targets: Seq<Seq<char>>,
    n: NodeView,
    links: LinkMapView,
    found: FoundView,
)
    ensures
        validate::missing_links(targets, links, found) == targets.filter(
            |id: Seq<char>| !validate::link_present(id, links, found),
        ),
        validate::checked(n, links, found).node_id == n.id,
        validate::checked(n, links, found).missing == validate::missing_links(
            n.links,
            links,
            found,
        ),
    decreases targets.len(),
{
    reveal(Seq::filter);
    if targets.len() > 0 {
        law_missing_links_in_order(targets.drop_last(), n, links, found);
    }
}

/// Each node is checked against what was found on the page that it is on, and
/// those of which something is missing are reported, in order.
pub proof fn law_nodes_are_checked_in_turn(
    nodes: Seq<NodeView>,
    links: LinkMapView,
    found: Seq<FoundView>,
    k: int,
    p: int,
)
    requires
        0 <= k < nodes.len(),
        ({
            let read = content::pages_to_read(nodes, links, nodes.len() as int);
            &&& 0 <= p < read.len()
            &&& read[p].0 == validate::target_page(links[nodes[k].id])
            &&& forall|q: int|
                0 <= q < p ==> (#[trigger] read[q]).0 != validate::target_page(links[nodes[k].id])
        }),
    ensures
        ({
            let r = validate::checked(nodes[k], links, found[p]);
            content::failed_nodes(nodes, links, found, k + 1) == (if r.missing.len() == 0 {
                content::failed_nodes(nodes, links, found, k)
            } else {
                content::failed_nodes(nodes, links, found, k).push(r)
            })
        }),
        content::failed_nodes(nodes, links, found, 0).len() == 0,
{
    let read = content::pages_to_read(nodes, links, nodes.len() as int);
    lemma_page_index_is(read, validate::target_page(links[nodes[k].id]), p);
}

proof fn lemma_page_index_is(read: Seq<(Seq<char>, int)>, page: Seq<char>, p: int)
    requires
        0 <= p < read.len(),
        read[p].0 == page,
        forall|q: int| 0 <= q < p ==> (#[trigger] read[q]).0 != page,
    ensures
        content::page_index(read, page) == p,
    decreases read.len(),
{
    if p > 0 {
        let t = read.drop_first();
        assert(read[0] == read.first());
        assert(t[p - 1] == read[p]);
        assert forall|q: int| 0 <= q < p - 1 implies (#[trigger] t[q]).0 != page by {
            assert(t[q] == read[q + 1]);
        }
        lemma_page_index_is(t, page, p - 1);
    }
}

/// Whether a page to read is that of the first node on it, and nodes before
/// those of the pages behind it.
pub open spec fn read_soundly(
    nodes: Seq<NodeView>,
    links: LinkMapView,
    read: Seq<(Seq<char>, int)>,
    p: int,
) -> bool {
    &&& 0 <= read[p].1 < nodes.len()
    &&& read[p].0 == validate::target_page(links[nodes[read[p].1].id])
    &&& forall|i: int|
        0 <= i < read[p].1 ==> read[p].0 != validate::target_page(links[(#[trigger] nodes[i]).id])
    &&& p + 1 < read.len() ==> read[p].1 < read[p + 1].1
}

proof fn lemma_read_soundly(nodes: Seq<NodeView>, links: LinkMapView, k: int)
    requires
        0 <= k <= nodes.len(),
    ensures
        ({
            let read = content::pages_to_read(nodes, links, k);
            &&& forall|p: int|
                #![trigger read[p]]
                0 <= p < read.len() ==> read_soundly(nodes, links, read, p) && read[p].1 < k
            &&& forall|i: int|
                0 <= i < k ==> exists|p: int|
                    0 <= p < read.len() && (#[trigger] read[p]).0 == validate::target_page(
                        links[(#[trigger] nodes[i]).id],
                    )
        }),
    decreases k,
{
    if k > 0 {
        lemma_read_soundly(nodes, links, k - 1);
        let head = content::pages_to_read(nodes, links, k - 1);
        let read = content::pages_to_read(nodes, links, k);
        let page = content::page_of(nodes[k - 1], links);
        content::lemma_page_index(head, page);
        let j = content::page_index(head, page);
        if j < head.len() {
            assert(head[j].0 == page);
            assert forall|i: int| 0 <= i < k implies exists|p: int|
                0 <= p < read.len() && (#[trigger] read[p]).0 == validate::target_page(
                    links[(#[trigger] nodes[i]).id],
                ) by {
                if i == k - 1 {
                    assert(read[j].0 == page);
                }
            }
        } else {
            assert forall|p: int|
                #![trigger read[p]]
                0 <= p < read.len() implies read_soundly(nodes, links, read, p) && read[p].1
                < k by {
                if p < head.len() {
                    assert(read[p] == head[p]);
                    assert(read_soundly(nodes, links, head, p));
                    if p + 1 < head.len() {
                        assert(read[p + 1] == head[p + 1]);
                    }
                } else {
                    assert forall|i: int| 0 <= i < k - 1 implies page != validate::target_page(
                        links[(#[trigger] nodes[i]).id],
                    ) by {
                        if page == validate::target_page(links[nodes[i].id]) {
                            let q = choose|q: int|
                                0 <= q < head.len() && (#[trigger] head[q]).0
                                    == validate::target_page(links[nodes[i].id]);
                            lemma_page_index_bound(head, page, q);
                        }
                    }
                }
            }
            assert forall|i: int| 0 <= i < k implies exists|p: int|
                0 <= p < read.len() && (#[trigger] read[p]).0 == validate::target_page(
                    links[(#[trigger] nodes[i]).id],
                ) by {
                if i == k - 1 {
                    assert(read[head.len() as int].0 == page);
                } else {
                    let q = choose|q: int|
                        0 <= q < head.len() && (#[trigger] head[q]).0 == validate::target_page(
                            links[nodes[i].id],
                        );
                    assert(read[q] == head[q]);
                }
            }
        }
    }
}

proof fn lemma_page_index_bound(read: Seq<(Seq<char>, int)>, page: Seq<char>, q: int)
    requires
        0 <= q < read.len(),
        read[q].0 == page,
    ensures
        content::page_index(read, page) <= q,
    decreases read.len(),
{
    if read.first().0 != page {
        assert(read.drop_first()[q - 1] == read[q]);
        lemma_page_index_bound(read.drop_first(), page, q - 1);
    }
}

/// The pages that are read back are those that nodes are on, each once, in the
/// order of the first nodes on them; and the page of every node is among them.
pub proof fn law_pages_that_are_read(nodes: Seq<NodeView>, links: LinkMapView)
    ensures
        ({
            let read = content::pages_to_read(nodes, links, nodes.len() as int);
            &&& forall|p: int|
                #![trigger read[p]]
                0 <= p < read.len() ==> read_soundly(nodes, links, read, p)
            &&& forall|i: int|
                0 <= i < nodes.len() ==> exists|p: int|
                    0 <= p < read.len() && (#[trigger] read[p]).0 == validate::target_page(
                        links[(#[trigger] nodes[i]).id],
                    )
        }),
{
    lemma_read_soundly(nodes, links, nodes.len() as int);
}

// ---------------------------------------------------------------------
// Attempts
// ---------------------------------------------------------------------

/// A call is made again after a failure of the network, a status 429 or one of
/// the five hundreds, four times at most; no other failure is worth it.
pub proof fn law_retries(
    attempt: u32,
    status: u16,
    message: Seq<char>,
)
    ensures
        client::tries_again(attempt, FailureView::Http { status, message }) <==> attempt < 5 && (
        status == 429 || (500 <= status && status <= 599)),
        client::tries_again(attempt, FailureView::Network(message)) <==> attempt < 5,
        !client::tries_again(attempt, FailureView::Json(message)),
        !client::tries_again(attempt, FailureView::Other(message)),
        client::status_retryable(status) <==> status == 429 || (500 <= status && status <= 599),
        client::status_success(status) <==> 200 <= status && status <= 299,
{
}

/// A failure is reported as what it is: a refusal with its status and text, an
/// answer that makes no sense, or a failure on the way.
pub proof fn law_failures_are_reported(status: u16, message: Seq<char>)
    ensures
        client::failure_error(FailureView::Http { status, message }) == (NotionErrorView::Api {
            status,
            body: message,
        }),
        client::failure_error(FailureView::Network(message)) == NotionErrorView::Transport(message),
        client::failure_error(FailureView::Json(message)) == NotionErrorView::UnexpectedShape(
            message,
        ),
        client::failure_error(FailureView::Other(message)) == NotionErrorView::Transport(message),
{
}

/// Between attempts there is the time that Notion asks for; where it asks for
/// none, the base delay, then twice, four times and eight times as long.
pub proof fn law_delays(base_ms: u64, attempt: u32, secs: u64)
    requires
        base_ms * 8 <= u64::MAX,
    ensures
        client::delay_spec(base_ms, attempt, Some(secs)) == (Delay { secs, millis: 0 }),
        client::delay_spec(base_ms, 1, None) == (Delay { secs: 0, millis: base_ms }),
        client::delay_spec(base_ms, 2, None).secs == 0,
        client::delay_spec(base_ms, 2, None).millis == 2 * base_ms,
        client::delay_spec(base_ms, 3, None).secs == 0,
        client::delay_spec(base_ms, 3, None).millis == 4 * base_ms,
        client::delay_spec(base_ms, 4, None).secs == 0,
        client::delay_spec(base_ms, 4, None).millis == 8 * base_ms,
        1 <= attempt < 4 ==> client::delay_spec(base_ms, (attempt + 1) as u32, None).millis == 2
            * client::delay_spec(base_ms, attempt, None).millis,
{
    power2::lemma2_to64();
    assert(client::doublings(1) == 0 && client::doublings(2) == 1);
    assert(client::doublings(3) == 2 && client::doublings(4) == 3);
}

/// The children of a block are asked for at its own address, a hundred at a time,
/// from the cursor on where there is one.
pub proof fn law_children_url(base: Seq<char>, block_id: Seq<char>, cursor: Seq<char>)
    ensures
        client::children_url_spec(base, block_id, None) == base + "/blocks/"@ + block_id
            + "/children?page_size=100"@,
        client::children_url_spec(base, block_id, Some(cursor)) == base + "/blocks/"@ + block_id
            + "/children?page_size=100"@ + "&start_cursor="@ + cursor,
{
}

/// Whether a text is a number: digits, at least one, and perhaps a plus sign
/// before them.
pub open spec fn is_count(s: Seq<char>, digits: Seq<char>) -> bool {
    &&& s == digits || s == seq!['+'] + digits
    &&& digits.len() > 0
    &&& forall|i: int| 0 <= i < digits.len() ==> '0' <= #[trigger] digits[i] <= '9'
}

/// A header that says when to try again counts exactly if it is a whole number
/// that fits 64 bits, white space around it aside; and it is that number of
/// seconds.
pub proof fn law_retry_after(header: Seq<char>, digits: Seq<char>)
    ensures
        is_count(text::trim(header), digits) && texts::number_of(digits) <= u64::MAX ==> (
        client::retry_after_spec(header) matches Some(n) && n == texts::number_of(digits)),
        is_count(text::trim(header), digits) && texts::number_of(digits) > u64::MAX
            ==> client::retry_after_spec(header) is None,
        (forall|x: Seq<char>| !#[trigger] is_count(text::trim(header), x))
            ==> client::retry_after_spec(header) is None,
{
    let s = text::trim(header);
    let d = client::unsigned_part(s);
    lemma_digits(d);
    if is_count(s, digits) {
        if s.len() > 0 && s[0] == '+' {
            if s == digits {
                assert('0' <= digits[0]);
            }
            assert(s.skip(1) =~= digits);
        } else {
            if s == seq!['+'] + digits {
                assert(s[0] == '+');
            }
        }
        assert(d == digits);
    }
    if client::is_number(d) {
        if s.len() > 0 && s[0] == '+' {
            assert(s =~= seq!['+'] + d);
        }
        assert(is_count(s, d));
    }
}

proof fn lemma_digits(d: Seq<char>)
    ensures
        (forall|i: int| 0 <= i < d.len() ==> '0' <= #[trigger] d[i] <= '9')
            ==> client::digits_value(d) == texts::number_of(d),
    decreases d.len(),
{
    if d.len() > 0 {
        lemma_digits(d.drop_last());
        if forall|i: int| 0 <= i < d.len() ==> '0' <= #[trigger] d[i] <= '9' {
            assert forall|i: int| 0 <= i < d.drop_last().len() implies '0'
                <= #[trigger] d.drop_last()[i] <= '9' by {
                assert(d.drop_last()[i] == d[i]);
            }
            assert('0' <= d[d.len() - 1] <= '9');
        }
    }
}

// ---------------------------------------------------------------------
// Runs
// ---------------------------------------------------------------------

/// A run that fails before anything is written because links are broken ends with
/// 2, one whose snapshot is not valid with 3, and every other failure with 1.
pub proof fn law_exit_codes(e: RunErrorView)
    ensures
        e is PreValidation ==> cli::exit_code(e) == 2,
        e is PostValidation ==> cli::exit_code(e) == 3,
        !(e is PreValidation) && !(e is PostValidation) ==> cli::exit_code(e) == 1,
{
}

/// The page to publish under is the one that was given, or else that of the
/// environment; the title is the one that was given, or else says the time.
pub proof fn law_what_was_given_counts(
    given: Seq<char>,
    env: Option<Seq<char>>,
    now: Seq<char>,
)
    ensures
        run::parent_page(Some(given), env) == Some(given),
        run::parent_page(None, env) == env,
        run::snapshot_title(Some(given), now) == given,
        run::snapshot_title(None, now) == "Org-roam snapshot "@ + now,
{
}

/// What a run says before it writes: how many nodes it found and that it checks
/// their links; if they all resolve, that they do; and of a dry run the plan, and
/// that nothing was written.
pub proof fn law_lines_at_the_start(v: VaultView, root: PathView, dry_run: bool)
    ensures
        ({
            let lines = run::start_lines(v, root, dry_run);
            let tree = layout::tree_lines(v, root, v.nodes.len() as int);
            &&& lines[0] == "Found "@ + text::decimal(v.nodes.len()) + " node(s)."@
            &&& lines[1] == "Pre-validating internal links..."@
            &&& run::broken_links(v).len() > 0 ==> lines.len() == 2
            &&& run::broken_links(v).len() == 0 ==> lines[2] == "All links resolve locally."@
            &&& run::broken_links(v).len() == 0 && !dry_run ==> lines.len() == 3
            &&& run::broken_links(v).len() == 0 && dry_run ==> {
                &&& lines.len() == 6 + tree.len()
                &&& lines[3] == ""@
                &&& lines[4]
                    == "Dry run: vault is valid and ready to publish. Planned structure:"@
                &&& lines.subrange(5, 5 + tree.len() as int) == tree
                &&& lines.last() == "Nothing was written to Notion."@
            }
        }),
{
    let lines = run::start_lines(v, root, dry_run);
    let tree = layout::tree_lines(v, root, v.nodes.len() as int);
    if run::broken_links(v).len() == 0 && dry_run {
        assert(lines.subrange(5, 5 + tree.len() as int) =~= tree);
    }
}

/// What a run says at its end: how many nodes and blocks it published, how long
/// it took, and where the snapshot is.
pub proof fn law_lines_at_the_end(nodes: nat, blocks: nat, took: Seq<char>, url: Seq<char>)
    ensures
        run::summary_lines(nodes, blocks, took, Some(url)) == seq![
            ""@,
            "Snapshot published and fully validated: "@ + text::decimal(nodes) + " node(s), "@
                + text::decimal(blocks) + " block(s), "@ + took + "s elapsed."@,
            "Root page: "@ + url,
        ],
        run::summary_lines(nodes, blocks, took, None) == seq![
            ""@,
            "Snapshot published and fully validated: "@ + text::decimal(nodes) + " node(s), "@
                + text::decimal(blocks) + " block(s), "@ + took + "s elapsed."@,
            "Root page: "@ + ""@,
        ],
{
}

/// Whether one text stands somewhere in another.
pub open spec fn is_within(x: Seq<char>, s: Seq<char>) -> bool {
    exists|a: Seq<char>, b: Seq<char>| s == #[trigger] (a + x + b)
}

/// The message of a failed run tells every broken link, or every node of which
/// links are missing, in order; and where a snapshot was left behind, its URL.
pub proof fn law_failures_are_told(
    broken: Seq<BrokenLinkView>,
    b: BrokenLinkView,
    failures: Seq<ResultView>,
    f: ResultView,
    root_url: Seq<char>,
    context: Seq<char>,
    source: NotionErrorView,
)
    ensures
        cli::failure_text(RunErrorView::PreValidation(broken)) == "error: "@ + run::run_error_text(
            RunErrorView::PreValidation(broken),
        ) + cli::broken_lines(broken),
        cli::broken_lines(broken.push(b)) == cli::broken_lines(broken) + "\n  - "@ + (b.source_file
            + " (node "@ + b.source_node_id + ") links to unknown id [[id:"@ + b.target_id + "]]"@),
        cli::failure_text(RunErrorView::PostValidation { root_url, failures }) == "error: "@
            + run::run_error_text(RunErrorView::PostValidation { root_url, failures }) + (
        cli::failure_lines(failures) + cli::partial_snapshot_text(root_url)),
        cli::failure_lines(failures.push(f)) == cli::failure_lines(failures) + "\n  - node "@
            + f.node_id + ": missing mention(s) for "@ + cli::quoted_list(f.missing),
        is_within(root_url, cli::partial_snapshot_text(root_url)),
        cli::failure_text(
            RunErrorView::Api { context, source, root_url: Some(root_url) },
        ) == "error: "@ + (context + ": "@ + ports::notion_error_text(source))
            + cli::partial_snapshot_text(root_url),
        cli::failure_text(RunErrorView::Api { context, source, root_url: None }) == "error: "@ + (
        context + ": "@ + ports::notion_error_text(source)),
{
    assert(broken.push(b).drop_last() =~= broken);
    assert(failures.push(f).drop_last() =~= failures);
    let t = cli::partial_snapshot_text(root_url);
    let before =
        "\n\nWARNING: this snapshot is incomplete or failed validation.\nIt was NOT automatically deleted. Root page: "@;
    let after = "\nDelete it manually in Notion, then re-run once the issue is fixed."@;
    assert(t == before + root_url + after);
    let e = RunErrorView::Api { context, source, root_url: None };
    assert(cli::failure_text(e) =~= "error: "@ + run::run_error_text(e));
}

} // verus!
