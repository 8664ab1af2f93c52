//! What is written where, said of the nodes, writes and chunks themselves.

use crate::content;
use crate::content::Round;
use crate::converter::{LinkMapView, LinkTargetView};
use crate::layout;
use crate::layout::Placement;
use crate::notion;
use crate::notion::{AppenderView, JobView, PageItems, WriteView};
use crate::path::PathView;
use crate::ports::PositionView;
use crate::publish;
use crate::publish::{OutcomeView, ReplyView};
use crate::vault::VaultView;
use vstd::prelude::*;

verus! {

// ---------------------------------------------------------------------
// Links
// ---------------------------------------------------------------------

/// A link to a node points at the page that the node is on. Where the node is
/// merged onto its directory's page and the block of its heading is given, it
/// points at that block, by an address made of both IDs, and shows the title.
pub proof fn law_link_target(
    v: VaultView,
    root: PathView,
    page_ids: Seq<Seq<char>>,
    headings: Seq<Option<Seq<char>>>,
    i: int,
    block: Seq<char>,
)
    ensures
        layout::placed(v, root, v.nodes[i]) != Placement::Merged || headings[i] is None
            ==> content::target_of(v, root, page_ids, headings, i) == LinkTargetView::Page(
            page_ids[i],
        ),
        layout::placed(v, root, v.nodes[i]) == Placement::Merged && headings[i] == Some(block)
            ==> content::target_of(v, root, page_ids, headings, i) == (LinkTargetView::Block {
            page_id: page_ids[i],
            url: "https://notion.so/"@ + page_ids[i] + "#"@ + block,
            text: v.nodes[i].title,
        }),
{
}

/// The map of links holds one target for each node, under its ID, and nothing
/// else.
pub proof fn law_link_map(
    v: VaultView,
    root: PathView,
    page_ids: Seq<Seq<char>>,
    headings: Seq<Option<Seq<char>>>,
    k: int,
)
    requires
        0 <= k <= v.nodes.len(),
        forall|i: int, j: int|
            #![trigger v.nodes[i], v.nodes[j]]
            0 <= i < j < v.nodes.len() ==> v.nodes[i].id != v.nodes[j].id,
    ensures
        ({
            let m = content::link_map_spec(v, root, page_ids, headings, k);
            &&& forall|i: int|
                0 <= i < k ==> m.dom().contains((#[trigger] v.nodes[i]).id) && m[v.nodes[i].id]
                    == content::target_of(v, root, page_ids, headings, i)
            &&& forall|id: Seq<char>| #[trigger]
                m.dom().contains(id) ==> exists|i: int|
                    0 <= i < k && (#[trigger] v.nodes[i]).id == id
        }),
    decreases k,
{
    if k > 0 {
        law_link_map(v, root, page_ids, headings, k - 1);
        let before = content::link_map_spec(v, root, page_ids, headings, k - 1);
        let m = content::link_map_spec(v, root, page_ids, headings, k);
        assert forall|i: int| 0 <= i < k implies m.dom().contains((#[trigger] v.nodes[i]).id)
            && m[v.nodes[i].id] == content::target_of(v, root, page_ids, headings, i) by {
            if i < k - 1 {
                assert(v.nodes[i].id != v.nodes[k - 1].id);
            }
        }
        assert forall|id: Seq<char>| #[trigger] m.dom().contains(id) implies exists|i: int|
            0 <= i < k && (#[trigger] v.nodes[i]).id == id by {
            if id == v.nodes[k - 1].id {
            } else {
                assert(before.dom().contains(id));
            }
        }
    }
}

/// The targets of a snapshot are those without any heading block.
pub proof fn law_snapshot_links(v: VaultView, root: PathView, page_ids: Seq<Seq<char>>, i: int)
    ensures
        content::page_links(v, root, page_ids) == content::link_map_spec(
            v,
            root,
            page_ids,
            content::no_headings(v.nodes.len()),
            v.nodes.len() as int,
        ),
        content::no_headings(v.nodes.len()).len() == v.nodes.len(),
        0 <= i < v.nodes.len() ==> content::no_headings(v.nodes.len())[i] is None,
{
}

// ---------------------------------------------------------------------
// Rounds
// ---------------------------------------------------------------------

/// The first round is about the nodes on directories' pages, in the order in
/// which they are shown, and the second about all but index nodes.
pub proof fn law_rounds(v: VaultView, root: PathView, some: Seq<int>)
    ensures
        content::round_nodes(v, root, Round::Headings, some) == some.filter(
            |i: int| layout::placed(v, root, v.nodes[i]) != Placement::Paged,
        ),
        content::round_nodes(v, root, Round::Content, some) == some.filter(
            |i: int| layout::placed(v, root, v.nodes[i]) != Placement::Index,
        ),
    decreases some.len(),
{
    reveal(Seq::filter);
    if some.len() > 0 {
        law_rounds(v, root, some.drop_last());
    }
}

/// The first round writes an index node's content and, for every other node, the
/// heading that introduces it, to the end of the page. The second writes a
/// node's content: behind its heading where the node is merged and the heading
/// is known, and to the end otherwise.
pub proof fn law_writes(
    v: VaultView,
    root: PathView,
    links: LinkMapView,
    headings: Seq<Option<Seq<char>>>,
    i: int,
)
    ensures
        ({
            let n = v.nodes[i];
            let place = layout::placed(v, root, n);
            let first = content::write_of(v, root, Round::Headings, links, headings, i);
            let second = content::write_of(v, root, Round::Content, links, headings, i);
            let own = content::content_of(n, links);
            &&& first.node == i && second.node == i
            &&& first.position == PositionView::End
            &&& place == Placement::Index ==> first.blocks == own && !first.heading
            &&& place != Placement::Index ==> first.blocks == content::heading_of(n)
                && first.heading
            &&& second.blocks == own && !second.heading
            &&& place == Placement::Merged && headings[i] is Some ==> second.position == (
            PositionView::After { after_id: headings[i]->0 })
            &&& place != Placement::Merged || headings[i] is None ==> second.position
                == PositionView::End
        }),
{
}

/// The blocks that count are those of content: headings that only introduce a
/// node do not.
pub proof fn law_blocks_are_counted(
    writes: Seq<WriteView>,
    w: WriteView,
    jobs: Seq<JobView>,
    job: JobView,
    a: nat,
    b: nat,
)
    ensures
        content::content_count(Seq::<WriteView>::empty()) == 0,
        content::content_count(writes.push(w)) == content::content_count(writes) + (if w.heading {
            0nat
        } else {
            w.blocks.len()
        }),
        content::jobs_count(Seq::<JobView>::empty()) == 0,
        content::jobs_count(jobs.push(job)) == content::jobs_count(jobs) + content::content_count(
            job.writes,
        ),
        a + b <= usize::MAX ==> content::capped_sum(a, b) == a + b,
        a + b > usize::MAX ==> content::capped_sum(a, b) == usize::MAX,
{
    assert(writes.push(w).drop_last() =~= writes);
    assert(jobs.push(job).drop_last() =~= jobs);
}

/// Of a page's writes, each heading's first block is noted under its node, and
/// nothing else is.
pub proof fn law_noting(
    headings: Seq<Option<Seq<char>>>,
    writes: Seq<WriteView>,
    first_ids: Seq<Option<Seq<char>>>,
    k: int,
)
    requires
        0 <= k < writes.len(),
        0 <= writes[k].node < content::headings_after(headings, writes, first_ids, k).len(),
    ensures
        content::headings_after(headings, writes, first_ids, 0) == headings,
        ({
            let before = content::headings_after(headings, writes, first_ids, k);
            let after = content::headings_after(headings, writes, first_ids, k + 1);
            &&& !writes[k].heading ==> after == before
            &&& writes[k].heading ==> after.len() == before.len() && forall|i: int|
                0 <= i < before.len() ==> #[trigger] after[i] == (if i == writes[k].node {
                    first_ids[k]
                } else {
                    before[i]
                })
        }),
{
}

// ---------------------------------------------------------------------
// Chunks
// ---------------------------------------------------------------------

/// Blocks are sent from the first on, a hundred at a time and at the end what is
/// left; the IDs that come back are kept in order.
pub proof fn law_chunks_of_a_hundred(a: AppenderView, ids: Seq<Seq<char>>)
    requires
        0 <= a.sent < a.total,
    ensures
        a.total - a.sent > 100 ==> notion::chunk_end(a) == a.sent + 100,
        a.total - a.sent <= 100 ==> notion::chunk_end(a) == a.total,
        notion::appender_next(a, ids).sent == notion::chunk_end(a),
        notion::appender_next(a, ids).total == a.total,
        notion::appender_next(a, ids).ids == a.ids + ids,
{
}

/// What goes to the end goes there chunk by chunk; what goes behind a block goes
/// on behind the last block of the chunk before.
pub proof fn law_chunks_stay_together(
    total: int,
    position: PositionView,
    a: AppenderView,
    ids: Seq<Seq<char>>,
    id: Seq<char>,
)
    ensures
        notion::appender_start(total, position).sent == 0,
        notion::appender_start(total, position).total == total,
        notion::appender_start(total, position).position == position,
        notion::appender_start(total, position).ids.len() == 0,
        a.position == PositionView::End ==> notion::appender_next(a, ids).position
            == PositionView::End,
        a.position is After ==> notion::appender_next(a, ids.push(id)).position == (
        PositionView::After { after_id: id }),
{
    assert(ids.push(id).last() == id);
}

/// The page after each write in turn was done at once, from the `k`th on.
pub open spec fn each_done(
    page: PageItems,
    writes: Seq<WriteView>,
    ids: Seq<Seq<Seq<char>>>,
    k: int,
) -> PageItems
    decreases writes.len() - k,
{
    if k >= writes.len() {
        page
    } else {
        let new = Seq::new(
            writes[k].blocks.len(),
            |i: int| (ids[k][i], writes[k].blocks[i]),
        );
        each_done(notion::appended(page, new, writes[k].position), writes, ids, k + 1)
    }
}

/// Whether each write in turn finds the block that it goes behind, and gets IDs
/// that are new.
pub open spec fn each_fits(
    page: PageItems,
    writes: Seq<WriteView>,
    ids: Seq<Seq<Seq<char>>>,
    k: int,
) -> bool
    decreases writes.len() - k,
{
    k < writes.len() ==> {
        let new = Seq::new(
            writes[k].blocks.len(),
            |i: int| (ids[k][i], writes[k].blocks[i]),
        );
        &&& ids[k].len() == writes[k].blocks.len()
        &&& notion::fresh(ids[k], page)
        &&& notion::position_on(writes[k].position, page)
        &&& each_fits(
            notion::appended(page, new, writes[k].position),
            writes,
            ids,
            k + 1,
        )
    }
}

proof fn lemma_each_done(
    page: PageItems,
    writes: Seq<WriteView>,
    ids: Seq<Seq<Seq<char>>>,
    k: int,
)
    requires
        0 <= k <= writes.len(),
        each_fits(page, writes, ids, k),
    ensures
        notion::writes_in_chunks(page, writes, ids, k) == each_done(page, writes, ids, k),
    decreases writes.len() - k,
{
    if k < writes.len() {
        let new = Seq::new(
            writes[k].blocks.len(),
            |i: int| (ids[k][i], writes[k].blocks[i]),
        );
        assert(new =~= notion::items(ids[k], writes[k].blocks));
        let a = notion::appender_start(writes[k].blocks.len() as int, writes[k].position);
        notion::law_chunks_append_in_order(page, writes[k].blocks, ids[k], writes[k].position, a);
        lemma_each_done(notion::appended(page, new, writes[k].position), writes, ids, k + 1);
    }
}

/// Whatever the chunks, a writer leaves the page as if each of its writes had
/// been done at once, in order, each where it was to go.
pub proof fn law_writer_does_each_write(
    page: PageItems,
    writes: Seq<WriteView>,
    ids: Seq<Seq<Seq<char>>>,
)
    requires
        ids.len() == writes.len(),
        each_fits(page, writes, ids, 0),
    ensures
        notion::writer_run(page, ids, notion::writer_start(writes)) == each_done(
            page,
            writes,
            ids,
            0,
        ),
{
    notion::law_writer_writes_in_order(page, writes, ids);
    lemma_each_done(page, writes, ids, 0);
}

/// When a writer has sent everything, it knows for each write the ID of its first
/// block; and none for a write without blocks.
pub proof fn law_writer_knows_first_blocks(
    writes: Seq<WriteView>,
    ids: Seq<Seq<Seq<char>>>,
    k: int,
)
    requires
        ids.len() == writes.len(),
        forall|j: int| 0 <= j < ids.len() ==> (#[trigger] ids[j]).len() == writes[j].blocks.len(),
        0 <= k < writes.len(),
    ensures
        ({
            let firsts = notion::writer_end(ids, notion::writer_start(writes)).first_ids;
            &&& firsts.len() == writes.len()
            &&& writes[k].blocks.len() > 0 ==> firsts[k] == Some(ids[k][0])
            &&& writes[k].blocks.len() == 0 ==> firsts[k] is None
        }),
{
    notion::law_first_ids(writes, ids);
    assert(ids[k].len() == writes[k].blocks.len());
}

// ---------------------------------------------------------------------
// Outcomes
// ---------------------------------------------------------------------

/// The first page whose writing failed is one that failed, and none before it
/// did; where none failed, there is none.
pub proof fn law_first_failed_write(outcomes: Seq<OutcomeView>)
    ensures
        ({
            let r = publish::first_failed_write(outcomes);
            &&& 0 <= r <= outcomes.len()
            &&& r < outcomes.len() ==> outcomes[r].error is Some
            &&& forall|k: int| 0 <= k < r ==> (#[trigger] outcomes[k]).error is None
        }),
    decreases outcomes.len(),
{
    if outcomes.len() > 0 && outcomes.first().error is None {
        let t = outcomes.drop_first();
        law_first_failed_write(t);
        let r = publish::first_failed_write(outcomes);
        assert forall|k: int| 0 <= k < r implies (#[trigger] outcomes[k]).error is None by {
            if k > 0 {
                assert(t[k - 1] == outcomes[k]);
            }
        }
        if r < outcomes.len() {
            assert(t[r - 1] == outcomes[r]);
        }
    }
}

/// The first page whose reading failed is one that failed, and none before it
/// did; where none failed, there is none. What was found is taken page by page.
pub proof fn law_first_failed_read(replies: Seq<ReplyView>)
    ensures
        ({
            let r = publish::first_failed_read(replies);
            &&& 0 <= r <= replies.len()
            &&& r < replies.len() ==> replies[r] is Failed
            &&& forall|k: int| 0 <= k < r ==> (#[trigger] replies[k]) is Found
        }),
        publish::found_in(replies).len() == replies.len(),
        forall|k: int|
            0 <= k < replies.len() ==> (#[trigger] replies[k] matches ReplyView::Found(f)
                ==> publish::found_in(replies)[k] == f),
    decreases replies.len(),
{
    if replies.len() > 0 && replies.first() is Found {
        let t = replies.drop_first();
        law_first_failed_read(t);
        let r = publish::first_failed_read(replies);
        assert forall|k: int| 0 <= k < r implies (#[trigger] replies[k]) is Found by {
            if k > 0 {
                assert(t[k - 1] == replies[k]);
            }
        }
        if r < replies.len() {
            assert(t[r - 1] == replies[r]);
        }
    }
}

} // verus!
