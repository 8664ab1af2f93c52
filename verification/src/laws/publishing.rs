//! What a publication hands out, said of its vault and of the pages that it has
//! created.

use crate::content;
use crate::content::{GroupView, Round};
use crate::laws::writing;
use crate::layout;
use crate::notion::JobView;
use crate::org_parser;
use crate::org_parser::NodeView;
use crate::pages;
use crate::pages::{PageCreation, Plan};
use crate::path::PathView;
use crate::ports::{FileSystem, FsErrorView};
use crate::publish;
use crate::publish::{Action, OutcomeView, PageOutcome, Publication, Stage};
use crate::run::RunErrorView;
use crate::vault;
use crate::vault::{MarkerReply, VaultView};
use vstd::prelude::*;

verus! {

/// The page of a node is the one that the plan says, by the ID that it was
/// created with.
pub proof fn law_pages_of_nodes(c: PageCreation, i: int)
    requires
        0 <= i < c.plan.node_pages@.len(),
    ensures
        publish::page_ids_of(c).len() == c.plan.node_pages@.len(),
        publish::page_ids_of(c)[i] == c.created@[c.plan.node_pages@[i] as int].id@,
{
}

/// What a publication writes and reads is what its own vault gives, with the
/// pages that it has created.
pub proof fn law_work_of_a_publication(
    p: Publication,
    round: Round,
    headings: Seq<Option<Seq<char>>>,
)
    ensures
        ({
            let v = p.vault.deep_view();
            let root = p.vault_dir.deep_view();
            let ids = publish::page_ids_of(p.creation);
            let links = content::page_links(v, root, ids);
            &&& publish::links_of(p) == links
            &&& publish::jobs_of(p, round, headings) == content::round_jobs(
                v,
                root,
                round,
                ids,
                links,
                headings,
            )
            &&& publish::reads_of(p) == content::pages_to_read(
                v.nodes,
                links,
                v.nodes.len() as int,
            )
        }),
        p.stage == Stage::Headings ==> publish::jobs_at_hand(p) == publish::jobs_of(
            p,
            Round::Headings,
            p.headings.deep_view(),
        ),
        p.stage == Stage::Content ==> publish::jobs_at_hand(p) == publish::jobs_of(
            p,
            Round::Content,
            p.headings.deep_view(),
        ),
{
}

/// A write that failed is reported with the node that it was for, what was
/// answered, and where the snapshot is.
pub proof fn law_failed_write_is_reported(
    v: VaultView,
    c: PageCreation,
    o: OutcomeView,
)
    requires
        0 <= o.writer.current < o.writer.writes.len(),
        o.error is Some,
        c.created@.len() > 0,
    ensures
        ({
            let w = o.writer.writes[o.writer.current];
            publish::write_error(v, c, o) == (RunErrorView::Api {
                context: content::write_failure_text(w.heading, v.nodes[w.node].title),
                source: o.error->0,
                root_url: Some(c.created@[0].url@),
            })
        }),
{
}

/// A plan lists the pages of the snapshot and says of each node where it goes;
/// and it counts the directories, the nodes with a page of their own, the nodes
/// without one, and the directories with an index.
pub proof fn law_plan_counts(p: Plan, v: VaultView, root: PathView, title: Seq<char>, i: int)
    requires
        pages::plan_of(p, v, root, title),
        0 <= i < v.nodes.len(),
    ensures
        p.pages.deep_view() == pages::planned_pages(v, root, title),
        p.node_pages@.len() == v.nodes.len(),
        p.node_pages@[i] == pages::page_of_node(v, root, i),
        p.dir_count == layout::directories(v, root).len(),
        p.index_count == v.indexes.len(),
        p.paged_count == pages::paged_count(v, root, v.nodes.len() as int),
        p.paged_count + p.on_dir_count == v.nodes.len(),
{
}

/// The page that is asked for is the next of the plan, with its title and under
/// its parent.
pub proof fn law_next_page_is_asked_for(a: Action, c: PageCreation)
    requires
        publish::asks_for_page(a, c),
    ensures
        a matches Action::Create(q) && q.title@ == c.plan.pages@[c.created@.len() as int].title@
            && q.parent_id@ == pages::next_parent(c),
{
}

/// The headings are noted page by page, in order, from what each page's writer
/// has sent.
pub proof fn law_pages_are_noted_in_turn(
    headings: Seq<Option<Seq<char>>>,
    outcomes: Seq<OutcomeView>,
    k: int,
)
    requires
        0 <= k < outcomes.len(),
    ensures
        publish::noted(headings, outcomes, 0) == headings,
        publish::noted(headings, outcomes, k + 1) == content::headings_after(
            publish::noted(headings, outcomes, k),
            outcomes[k].writer.writes,
            outcomes[k].writer.first_ids,
            outcomes[k].writer.first_ids.len() as int,
        ),
{
}

/// The outcomes that a publication takes are those of its jobs, in order. None is
/// left out but behind one that failed, and who reports no failure has written
/// everything.
pub proof fn law_outcomes_answer_jobs(outcomes: Vec<PageOutcome>, jobs: Seq<JobView>, k: int)
    requires
        publish::answers(outcomes, jobs),
        0 <= k < outcomes@.len(),
    ensures
        outcomes@.len() <= jobs.len(),
        outcomes@[k].writer.job.deep_view() == jobs[k],
        (forall|j: int| 0 <= j < outcomes@.len() ==> (#[trigger] outcomes@[j]).error is None)
            ==> outcomes@.len() == jobs.len(),
        outcomes@[k].error is None ==> outcomes@[k].writer.current == jobs[k].writes.len(),
        outcomes@[k].error is Some ==> outcomes@[k].writer.current < jobs[k].writes.len(),
{
    let o = outcomes.deep_view();
    writing::law_first_failed_write(o);
    let first = publish::first_failed_write(o);
    assert(o[k] == outcomes@[k].deep_view());
    if forall|j: int| 0 <= j < outcomes@.len() ==> (#[trigger] outcomes@[j]).error is None {
        if first < o.len() {
            assert(o[first] == outcomes@[first].deep_view());
            assert(outcomes@[first].error is None);
        }
    }
}

proof fn lemma_group_pages(groups: Seq<GroupView>, page_id: Seq<char>, i: int)
    ensures
        ({
            let ids = groups.map_values(|g: GroupView| g.page_id);
            let after = content::with_node(groups, page_id, i).map_values(|g: GroupView| g.page_id);
            after == (if ids.contains(page_id) {
                ids
            } else {
                ids.push(page_id)
            })
        }),
{
    let ids = groups.map_values(|g: GroupView| g.page_id);
    let after = content::with_node(groups, page_id, i).map_values(|g: GroupView| g.page_id);
    lemma_group_at(groups, page_id);
    let g = content::group_index(groups, page_id);
    if 0 <= g < groups.len() {
        assert(ids[g] == page_id);
        assert(after =~= ids);
    } else {
        if ids.contains(page_id) {
            let k = choose|k: int| 0 <= k < ids.len() && ids[k] == page_id;
            assert(groups[k].page_id == page_id);
        }
        assert(after =~= ids.push(page_id));
    }
}

proof fn lemma_group_at(groups: Seq<GroupView>, page_id: Seq<char>)
    ensures
        0 <= content::group_index(groups, page_id) <= groups.len(),
        content::group_index(groups, page_id) < groups.len() ==> groups[content::group_index(
            groups,
            page_id,
        )].page_id == page_id,
        forall|g: int|
            0 <= g < content::group_index(groups, page_id) ==> (#[trigger] groups[g]).page_id
                != page_id,
    decreases groups.len(),
{
    if groups.len() > 0 && groups.first().page_id != page_id {
        let t = groups.drop_first();
        lemma_group_at(t, page_id);
        assert forall|g: int| 0 <= g < content::group_index(groups, page_id) implies (
        #[trigger] groups[g]).page_id != page_id by {
            if g > 0 {
                assert(groups[g] == t[g - 1]);
            }
        }
    }
}

/// The pages of a round come as their first nodes come, each once.
pub proof fn law_pages_of_a_round_in_order(some: Seq<int>, page_ids: Seq<Seq<char>>)
    ensures
        content::grouped(some, page_ids).map_values(|g: GroupView| g.page_id)
            == org_parser::first_seen(some.map_values(|i: int| page_ids[i])),
    decreases some.len(),
{
    let all = some.map_values(|i: int| page_ids[i]);
    if some.len() > 0 {
        let h = some.drop_last();
        law_pages_of_a_round_in_order(h, page_ids);
        assert(all.drop_last() =~= h.map_values(|i: int| page_ids[i]));
        assert(all.last() == page_ids[some.last()]);
        lemma_group_pages(content::grouped(h, page_ids), page_ids[some.last()], some.last());
    } else {
        assert(content::grouped(some, page_ids).map_values(|g: GroupView| g.page_id)
            =~= Seq::<Seq<char>>::empty());
    }
}

/// What a round writes is one job for each group, for the group's page, with one
/// write for each of its nodes, in order.
pub proof fn law_jobs_follow_groups(
    v: VaultView,
    root: PathView,
    round: Round,
    page_ids: Seq<Seq<char>>,
    links: crate::converter::LinkMapView,
    headings: Seq<Option<Seq<char>>>,
    g: int,
    k: int,
)
    requires
        0 <= g < content::round_groups(v, root, round, page_ids).len(),
        0 <= k < content::round_groups(v, root, round, page_ids)[g].nodes.len(),
    ensures
        ({
            let nodes = content::round_nodes(
                v,
                root,
                round,
                crate::layout::display_order(v, root),
            );
            let groups = content::grouped(nodes, page_ids);
            let jobs = content::round_jobs(v, root, round, page_ids, links, headings);
            &&& content::round_groups(v, root, round, page_ids) == groups
            &&& jobs.len() == groups.len()
            &&& jobs[g].page_id == groups[g].page_id
            &&& jobs[g].writes.len() == groups[g].nodes.len()
            &&& jobs[g].writes[k] == content::write_of(
                v,
                root,
                round,
                links,
                headings,
                groups[g].nodes[k],
            )
        }),
{
}

/// A scan that succeeds has asked for every file and for the index file of every
/// directory, and for nothing else.
pub proof fn law_scan_asks_for_everything<F: FileSystem>(
    fs: &F,
    vault_dir: PathView,
    paths: Seq<PathView>,
    files: Seq<Result<Seq<char>, FsErrorView>>,
    markers: Seq<MarkerReply>,
)
    requires
        vault::scan_replies(fs, vault_dir, Ok(paths), files, markers),
        vault::scan_spec(vault_dir, Ok(paths), files, markers) is Ok,
    ensures
        files.len() == paths.len(),
        markers.len() == vault::file_dirs(paths).len(),
        fs.can_list(vault_dir, Ok(paths)),
        forall|k: int|
            0 <= k < files.len() ==> #[trigger] fs.can_read(vault::in_order(paths)[k], files[k]),
        forall|k: int|
            0 <= k < markers.len() ==> match #[trigger] markers[k] {
                MarkerReply::Absent => fs.can_exist(
                    vault::marker_of(vault::file_dirs(paths)[k]),
                    false,
                ),
                MarkerReply::Read(text) => fs.can_exist(
                    vault::marker_of(vault::file_dirs(paths)[k]),
                    true,
                ) && fs.can_read(vault::marker_of(vault::file_dirs(paths)[k]), text),
            },
{
    assert forall|k: int| 0 <= k < markers.len() implies match #[trigger] markers[k] {
        MarkerReply::Absent => fs.can_exist(vault::marker_of(vault::file_dirs(paths)[k]), false),
        MarkerReply::Read(text) => fs.can_exist(
            vault::marker_of(vault::file_dirs(paths)[k]),
            true,
        ) && fs.can_read(vault::marker_of(vault::file_dirs(paths)[k]), text),
    } by {
        assert(vault::can_mark(fs, vault::file_dirs(paths)[k], markers[k]));
    }
}

/// The map of IDs holds the position of each node under its ID, and nothing else.
pub proof fn law_positions_of_nodes(nodes: Seq<NodeView>)
    requires
        nodes.len() <= usize::MAX,
        forall|i: int, j: int|
            #![trigger nodes[i], nodes[j]]
            0 <= i < j < nodes.len() ==> nodes[i].id != nodes[j].id,
    ensures
        forall|i: int|
            0 <= i < nodes.len() ==> vault::id_index_spec(nodes).dom().contains(
                (#[trigger] nodes[i]).id,
            ) && vault::id_index_spec(nodes)[nodes[i].id] == i,
        forall|id: Seq<char>| #[trigger]
            vault::id_index_spec(nodes).dom().contains(id) ==> exists|i: int|
                0 <= i < nodes.len() && (#[trigger] nodes[i]).id == id,
    decreases nodes.len(),
{
    if nodes.len() > 0 {
        let h = nodes.drop_last();
        assert forall|i: int, j: int|
            #![trigger h[i], h[j]]
            0 <= i < j < h.len() implies h[i].id != h[j].id by {
            assert(nodes[i].id != nodes[j].id);
        }
        law_positions_of_nodes(h);
        let before = vault::id_index_spec(h);
        let m = vault::id_index_spec(nodes);
        assert forall|i: int| 0 <= i < nodes.len() implies m.dom().contains(
            (#[trigger] nodes[i]).id,
        ) && m[nodes[i].id] == i by {
            if i < h.len() {
                assert(h[i] == nodes[i]);
                assert(nodes[i].id != nodes[nodes.len() - 1].id);
            }
        }
        assert forall|id: Seq<char>| #[trigger] m.dom().contains(id) implies exists|i: int|
            0 <= i < nodes.len() && (#[trigger] nodes[i]).id == id by {
            if id == nodes.last().id {
                assert(nodes[nodes.len() - 1].id == id);
            } else {
                assert(before.dom().contains(id));
                let i = choose|i: int| 0 <= i < h.len() && (#[trigger] h[i]).id == id;
                assert(nodes[i].id == id);
            }
        }
    }
}

} // verus!
