//! The publication of a validated vault, as a machine: it names the calls to
//! make, takes what came back, and decides what follows.
//!
//! Pages are created one after another, since Notion shows them in that order
//! and cannot reorder them. Only when all of them are there is content written,
//! so that every link has a page to mention; and only when all content is
//! written is it read back. The calls of one action are independent of one
//! another and may be in flight together.

use crate::content;
use crate::content::{PageRead, Round};
use crate::converter::{LinkMap, LinkMapView};
use crate::notion;
use crate::notion::{JobView, PageJob, PageWriter, WriterView};
use crate::pages;
use crate::pages::{CreateRequest, CreateStep, PageCreation, Plan};
use crate::path::VaultPath;
use crate::ports::{CreatedPage, NotionError, NotionErrorView};
use crate::run::{RunError, RunErrorView, RunReport};
use crate::text;
use crate::validate::{FoundLinks, FoundView};
use crate::vault::{Vault, VaultView};
use vstd::prelude::*;

verus! {

/// How far a publication has come.
#[derive(Debug, Clone, Copy, PartialEq, Eq, Structural)]
pub enum Stage {
    /// A page is being created.
    Creating,
    /// Index content and the headings of merged nodes are being written.
    Headings,
    /// All other content is being written.
    Content,
    /// The pages are being read back.
    Reading,
    /// Nothing is left to do.
    Over,
}

/// A publication under way.
pub struct Publication {
    pub vault: Vault,
    pub vault_dir: VaultPath,
    pub creation: PageCreation,
    pub stage: Stage,
    /// The page of each node, once all pages are there.
    pub page_ids: Vec<String>,
    /// What links point at, once all pages are there.
    pub links: LinkMap,
    /// The heading block of each node, as far as it is known.
    pub headings: Vec<Option<String>>,
    /// The content blocks handed out to be written.
    pub block_count: usize,
    /// The pages being read back.
    pub reads: Vec<PageRead>,
}

/// The calls to make, or how the publication ended.
pub enum Action {
    /// Create a page.
    Create(CreateRequest),
    /// Write these pages.
    Write(Vec<PageJob>),
    /// Read these pages back.
    Read(Vec<String>),
    /// The snapshot is published and validated.
    Finish(RunReport),
    /// The run has failed.
    Fail(RunError),
}

/// What to report, and what to do.
pub struct Step {
    pub lines: Vec<String>,
    pub action: Action,
}

/// How the writing of one page went.
pub struct PageOutcome {
    /// The writer, as far as it came.
    pub writer: PageWriter,
    /// Why it came no further, if it did not.
    pub error: Option<NotionError>,
}

/// The model of the writing of one page.
pub struct OutcomeView {
    pub writer: WriterView,
    pub error: Option<NotionErrorView>,
}

impl DeepView for PageOutcome {
    type V = OutcomeView;

    open spec fn deep_view(&self) -> OutcomeView {
        OutcomeView { writer: self.writer.deep_view(), error: self.error.deep_view() }
    }
}

/// How the reading of one page went.
pub enum PageReply {
    Found(FoundLinks),
    Failed(NotionError),
}

/// The model of the reading of one page.
pub enum ReplyView {
    Found(FoundView),
    Failed(NotionErrorView),
}

impl DeepView for PageReply {
    type V = ReplyView;

    open spec fn deep_view(&self) -> ReplyView {
        match self {
            PageReply::Found(f) => ReplyView::Found(f.deep_view()),
            PageReply::Failed(e) => ReplyView::Failed(e.deep_view()),
        }
    }
}

// ---------------------------------------------------------------------
// The model
// ---------------------------------------------------------------------

/// The page of each node, when all pages are there.
pub open spec fn page_ids_of(c: PageCreation) -> Seq<Seq<char>> {
    Seq::new(
        c.plan.node_pages@.len(),
        |i: int| c.created@[c.plan.node_pages@[i] as int].id@,
    )
}

/// Whether all pages are there, and what follows from them is known.
pub open spec fn all_created(p: Publication) -> bool {
    &&& p.creation.created@.len() == p.creation.plan.pages@.len()
    &&& p.page_ids.deep_view() == page_ids_of(p.creation)
    &&& p.page_ids@.len() == p.vault.nodes@.len()
    &&& p.links.map() == links_of(p)
    &&& p.headings@.len() == p.vault.nodes@.len()
}

/// What links point at.
pub open spec fn links_of(p: Publication) -> LinkMapView {
    content::page_links(
        p.vault.deep_view(),
        p.vault_dir.deep_view(),
        page_ids_of(p.creation),
    )
}

/// The pages to read back, each with the first node on it.
pub open spec fn reads_of(p: Publication) -> Seq<(Seq<char>, int)> {
    content::pages_to_read(
        p.vault.deep_view().nodes,
        links_of(p),
        p.vault.deep_view().nodes.len() as int,
    )
}

/// What a round writes, page by page.
pub open spec fn jobs_of(p: Publication, round: Round, headings: Seq<Option<Seq<char>>>) -> Seq<
    JobView,
> {
    content::round_jobs(
        p.vault.deep_view(),
        p.vault_dir.deep_view(),
        round,
        page_ids_of(p.creation),
        links_of(p),
        headings,
    )
}

/// Whether a publication is under way.
pub open spec fn publication_valid(p: Publication) -> bool {
    &&& pages::creation_valid(p.creation)
    &&& p.creation.plan.node_pages@.len() == p.vault.nodes@.len()
    &&& match p.stage {
        Stage::Creating => p.creation.created@.len() < p.creation.plan.pages@.len(),
        Stage::Headings | Stage::Content => all_created(p),
        Stage::Reading => all_created(p) && p.reads.deep_view() == reads_of(p),
        Stage::Over => true,
    }
}

/// Whether two publications are of the same vault with the same pages.
pub open spec fn same_pages(p: Publication, q: Publication) -> bool {
    &&& p.vault == q.vault
    &&& p.vault_dir == q.vault_dir
    &&& p.creation == q.creation
}

/// The page that comes next is asked for.
pub open spec fn asks_for_page(a: Action, c: PageCreation) -> bool {
    a matches Action::Create(q) && q.title@ == c.plan.pages@[c.created@.len() as int].title@
        && q.parent_id@ == pages::next_parent(c)
}

/// The heading blocks known after the first `k` pages were written.
pub open spec fn noted(
    headings: Seq<Option<Seq<char>>>,
    outcomes: Seq<OutcomeView>,
    k: int,
) -> Seq<Option<Seq<char>>>
    decreases k,
{
    if k <= 0 {
        headings
    } else {
        let w = outcomes[k - 1].writer;
        content::headings_after(
            noted(headings, outcomes, k - 1),
            w.writes,
            w.first_ids,
            w.first_ids.len() as int,
        )
    }
}

/// The first page whose writing failed, or the number of pages.
pub open spec fn first_failed_write(outcomes: Seq<OutcomeView>) -> int
    decreases outcomes.len(),
{
    if outcomes.len() == 0 || outcomes.first().error is Some {
        0
    } else {
        1 + first_failed_write(outcomes.drop_first())
    }
}

/// The first page whose reading failed, or the number of pages.
pub open spec fn first_failed_read(replies: Seq<ReplyView>) -> int
    decreases replies.len(),
{
    if replies.len() == 0 || replies.first() is Failed {
        0
    } else {
        1 + first_failed_read(replies.drop_first())
    }
}

/// The links found on the pages that were read.
pub open spec fn found_in(replies: Seq<ReplyView>) -> Seq<FoundView> {
    replies.map_values(|r: ReplyView| r->Found_0)
}

/// How the publication fails where a write failed.
pub open spec fn write_error(v: VaultView, c: PageCreation, o: OutcomeView) -> RunErrorView {
    let w = o.writer.writes[o.writer.current];
    RunErrorView::Api {
        context: content::write_failure_text(w.heading, v.nodes[w.node].title),
        source: o.error->0,
        root_url: pages::root_url_of(c.created.deep_view()),
    }
}

/// Whether an outcome is that of a writer that is done, or that failed with
/// something left to write.
pub open spec fn outcome_valid(o: OutcomeView) -> bool {
    &&& notion::writer_valid(o.writer)
    &&& o.error is None ==> o.writer.current == o.writer.writes.len()
    &&& o.error is Some ==> o.writer.current < o.writer.writes.len()
}

/// The round that is under way while pages are written.
pub open spec fn round_at(stage: Stage) -> Round {
    if stage == Stage::Headings {
        Round::Headings
    } else {
        Round::Content
    }
}

/// The jobs that were handed out last.
pub open spec fn jobs_at_hand(p: Publication) -> Seq<JobView> {
    jobs_of(p, round_at(p.stage), p.headings.deep_view())
}

/// Whether the outcomes are those of the jobs, in order: of all of them, or up
/// to one that failed at least.
pub open spec fn answers(outcomes: Vec<PageOutcome>, jobs: Seq<JobView>) -> bool {
    &&& outcomes@.len() <= jobs.len()
    &&& first_failed_write(outcomes.deep_view()) == outcomes@.len() ==> outcomes@.len()
        == jobs.len()
    &&& forall|k: int|
        0 <= k < outcomes@.len() ==> (#[trigger] outcomes@[k]).writer.job.deep_view() == jobs[k]
            && outcome_valid(outcomes@[k].deep_view())
}

// ---------------------------------------------------------------------
// The machine
// ---------------------------------------------------------------------

fn count_jobs(counted: usize, jobs: &Vec<PageJob>) -> (r: usize)
    ensures
        r == content::capped_sum(counted as nat, content::jobs_count(jobs.deep_view())),
{
    let ghost all = jobs.deep_view();
    let mut n: usize = counted;
    let mut k: usize = 0;
    while k < jobs.len()
        invariant
            all == jobs.deep_view(),
            k <= jobs@.len(),
            n == content::capped_sum(counted as nat, content::jobs_count(all.take(k as int))),
        decreases jobs.len() - k,
    {
        proof {
            assert(all.take(k + 1).drop_last() =~= all.take(k as int));
            assert(all.take(k + 1).last() == jobs[k as int].deep_view());
        }
        n = content::count_blocks(n, &jobs[k]);
        k = k + 1;
    }
    assert(all.take(k as int) =~= all);
    n
}

fn failed_write(outcomes: &Vec<PageOutcome>) -> (r: usize)
    ensures
        r == first_failed_write(outcomes.deep_view()),
        r <= outcomes@.len(),
        r < outcomes@.len() ==> outcomes@[r as int].error is Some,
        forall|k: int| 0 <= k < r ==> (#[trigger] outcomes@[k]).error is None,
{
    let ghost all = outcomes.deep_view();
    let mut i: usize = 0;
    assert(all.skip(0) =~= all);
    while i < outcomes.len()
        invariant
            all == outcomes.deep_view(),
            i <= outcomes@.len(),
            first_failed_write(all) == i + first_failed_write(all.skip(i as int)),
            forall|k: int| 0 <= k < i ==> (#[trigger] outcomes@[k]).error is None,
        decreases outcomes.len() - i,
    {
        assert(all.skip(i as int).first() == outcomes[i as int].deep_view());
        if outcomes[i].error.is_some() {
            return i;
        }
        assert(all.skip(i as int).drop_first() =~= all.skip(i + 1));
        i = i + 1;
    }
    i
}

fn failed_read(replies: &Vec<PageReply>) -> (r: usize)
    ensures
        r == first_failed_read(replies.deep_view()),
        r <= replies@.len(),
        r < replies@.len() ==> replies@[r as int] is Failed,
        forall|k: int| 0 <= k < r ==> (#[trigger] replies@[k]) is Found,
{
    let ghost all = replies.deep_view();
    let mut i: usize = 0;
    assert(all.skip(0) =~= all);
    while i < replies.len()
        invariant
            all == replies.deep_view(),
            i <= replies@.len(),
            first_failed_read(all) == i + first_failed_read(all.skip(i as int)),
            forall|k: int| 0 <= k < i ==> (#[trigger] replies@[k]) is Found,
        decreases replies.len() - i,
    {
        assert(all.skip(i as int).first() == replies[i as int].deep_view());
        match &replies[i] {
            PageReply::Failed(_) => {
                return i;
            },
            PageReply::Found(_) => {},
        }
        assert(all.skip(i as int).drop_first() =~= all.skip(i + 1));
        i = i + 1;
    }
    i
}

fn all_found(replies: Vec<PageReply>) -> (r: Vec<FoundLinks>)
    requires
        forall|k: int| 0 <= k < replies@.len() ==> (#[trigger] replies@[k]) is Found,
    ensures
        r.deep_view() == found_in(replies.deep_view()),
        r@.len() == replies@.len(),
{
    let ghost all = replies@;
    let ghost target = found_in(replies.deep_view());
    let mut out: Vec<FoundLinks> = Vec::new();
    for reply in it: replies
        invariant
            it.seq() == all,
            forall|k: int| 0 <= k < all.len() ==> (#[trigger] all[k]) is Found,
            target.len() == all.len(),
            forall|k: int|
                0 <= k < all.len() ==> #[trigger] target[k] == all[k].deep_view()->Found_0,
            out@.len() == it.index(),
            out.deep_view() == target.take(it.index() as int),
    {
        let ghost i = it.index() as int;
        let ghost before = out.deep_view();
        assert(reply == all[i]);
        match reply {
            PageReply::Found(f) => {
                out.push(f);
                assert(out.deep_view() =~= before.push(f.deep_view()));
                assert(target[i] == f.deep_view());
                assert(target.take(i + 1) =~= target.take(i).push(target[i]));
            },
            PageReply::Failed(_) => {},
        }
    }
    assert(target.take(target.len() as int) =~= target);
    out
}

impl Publication {
    /// Starts the publication of a vault, and asks for the root page.
    pub fn begin(vault: Vault, vault_dir: VaultPath, parent_page_id: String, title: &str) -> (r: (
        Publication,
        Step,
    ))
        ensures
            publication_valid(r.0),
            r.0.vault == vault,
            r.0.vault_dir == vault_dir,
            r.0.stage == Stage::Creating,
            pages::plan_of(
                r.0.creation.plan,
                vault.deep_view(),
                vault_dir.deep_view(),
                title@,
            ),
            r.0.creation.parent_page_id == parent_page_id,
            r.0.creation.created@.len() == 0,
            r.0.block_count == 0,
            r.1.lines.deep_view() == pages::creation_lines(r.0.creation),
            asks_for_page(r.1.action, r.0.creation),
    {
        let plan: Plan = pages::make_plan(&vault, &vault_dir, title);
        let creation: PageCreation = PageCreation::new(plan, parent_page_id);
        let first: CreateStep = creation.next();
        let p: Publication = Publication {
            vault,
            vault_dir,
            creation,
            stage: Stage::Creating,
            page_ids: Vec::new(),
            links: LinkMap::new(),
            headings: Vec::new(),
            block_count: 0,
            reads: Vec::new(),
        };
        let action: Action = match first.request {
            Some(q) => Action::Create(q),
            None => Action::Finish(RunReport { node_count: 0, block_count: 0, root_url: None }),
        };
        (p, Step { lines: first.lines, action })
    }

    /// Hands out the jobs of a round.
    fn hand_out(&mut self, round: Round) -> (r: Vec<PageJob>)
        requires
            all_created(*old(self)),
        ensures
            r.deep_view() == jobs_of(*old(self), round, old(self).headings.deep_view()),
            final(self).block_count == content::capped_sum(
                old(self).block_count as nat,
                content::jobs_count(r.deep_view()),
            ),
            same_pages(*final(self), *old(self)),
            final(self).stage == old(self).stage,
            final(self).page_ids == old(self).page_ids,
            final(self).links == old(self).links,
            final(self).headings == old(self).headings,
            final(self).reads == old(self).reads,
    {
        let jobs: Vec<PageJob> = content::make_jobs(
            &self.vault,
            &self.vault_dir,
            round,
            &self.page_ids,
            &self.links,
            &self.headings,
        );
        self.block_count = count_jobs(self.block_count, &jobs);
        jobs
    }

    /// Takes the page that was created, or why it was not.
    pub fn created(&mut self, reply: Result<CreatedPage, NotionError>) -> (r: Step)
        requires
            publication_valid(*old(self)),
            old(self).stage == Stage::Creating,
        ensures
            publication_valid(*final(self)),
            final(self).vault == old(self).vault,
            final(self).vault_dir == old(self).vault_dir,
            final(self).creation.plan == old(self).creation.plan,
            final(self).creation.parent_page_id == old(self).creation.parent_page_id,
            match reply {
                Err(e) => {
                    &&& final(self).stage == Stage::Over
                    &&& final(self).creation == old(self).creation
                    &&& r.lines@.len() == 0
                    &&& r.action matches Action::Fail(f)
                    &&& f.deep_view() == (RunErrorView::Api {
                        context: old(self).creation.plan.pages@[old(self).creation.created@.len() as int].context@,
                        source: e.deep_view(),
                        root_url: pages::root_url_of(old(self).creation.created.deep_view()),
                    })
                },
                Ok(page) => {
                    &&& final(self).creation.created@ == old(self).creation.created@.push(page)
                    &&& if final(self).creation.created@.len() < final(self).creation.plan.pages@.len() {
                        &&& final(self).stage == Stage::Creating
                        &&& final(self).block_count == old(self).block_count
                        &&& r.lines.deep_view() == pages::creation_lines(final(self).creation)
                        &&& asks_for_page(r.action, final(self).creation)
                    } else {
                        &&& final(self).stage == Stage::Headings
                        &&& final(self).headings.deep_view() == content::no_headings(
                            old(self).vault.nodes@.len(),
                        )
                        &&& r.lines.deep_view() == pages::creation_lines(
                            final(self).creation,
                        ).push("Writing content..."@)
                        &&& r.action matches Action::Write(jobs)
                        &&& jobs.deep_view() == jobs_of(
                            *final(self),
                            Round::Headings,
                            final(self).headings.deep_view(),
                        )
                        &&& final(self).block_count == content::capped_sum(
                            old(self).block_count as nat,
                            content::jobs_count(jobs.deep_view()),
                        )
                    }
                },
            },
    {
        match reply {
            Err(e) => {
                self.stage = Stage::Over;
                Step { lines: Vec::new(), action: Action::Fail(self.creation.failure(e)) }
            },
            Ok(page) => {
                self.creation.accept(page);
                let step: CreateStep = self.creation.next();
                match step.request {
                    Some(q) => Step { lines: step.lines, action: Action::Create(q) },
                    None => {
                        let mut lines: Vec<String> = step.lines;
                        let ghost before = lines.deep_view();
                        lines.push("Writing content...".to_owned());
                        assert(lines.deep_view() =~= before.push("Writing content..."@));
                        self.stage = Stage::Headings;
                        self.page_ids = self.creation.node_page_ids();
                        assert(self.page_ids.deep_view() =~= page_ids_of(self.creation));
                        self.links =
                        content::snapshot_links(&self.vault, &self.vault_dir, &self.page_ids);
                        self.headings = content::empty_headings(self.vault.nodes.len());
                        let jobs: Vec<PageJob> = self.hand_out(Round::Headings);
                        Step { lines, action: Action::Write(jobs) }
                    },
                }
            },
        }
    }

    fn root_url(&self) -> (r: String)
        requires
            self.creation.created@.len() > 0,
        ensures
            pages::root_url_of(self.creation.created.deep_view()) == Some(r@),
    {
        match self.creation.root_url() {
            Some(url) => url,
            None => String::new(),
        }
    }

    fn note_headings(&mut self, outcomes: &Vec<PageOutcome>)
        requires
            forall|k: int|
                0 <= k < outcomes@.len() ==> notion::writer_valid(
                    (#[trigger] outcomes@[k]).writer.deep_view(),
                ),
        ensures
            final(self).headings.deep_view() == noted(
                old(self).headings.deep_view(),
                outcomes.deep_view(),
                outcomes@.len() as int,
            ),
            final(self).headings@.len() == old(self).headings@.len(),
            same_pages(*final(self), *old(self)),
            final(self).stage == old(self).stage,
            final(self).page_ids == old(self).page_ids,
            final(self).links == old(self).links,
            final(self).block_count == old(self).block_count,
            final(self).reads == old(self).reads,
    {
        let ghost all = outcomes.deep_view();
        let ghost start = self.headings.deep_view();
        let mut k: usize = 0;
        while k < outcomes.len()
            invariant
                all == outcomes.deep_view(),
                k <= outcomes@.len(),
                forall|j: int|
                    0 <= j < outcomes@.len() ==> notion::writer_valid(
                        (#[trigger] outcomes@[j]).writer.deep_view(),
                    ),
                self.headings.deep_view() == noted(start, all, k as int),
                self.headings@.len() == old(self).headings@.len(),
                same_pages(*self, *old(self)),
                self.stage == old(self).stage,
                self.page_ids == old(self).page_ids,
                self.links == old(self).links,
                self.block_count == old(self).block_count,
                self.reads == old(self).reads,
            decreases outcomes.len() - k,
        {
            assert(all[k as int] == outcomes[k as int].deep_view());
            content::record_headings(&mut self.headings, &outcomes[k].writer);
            k = k + 1;
        }
    }

    /// Takes how the writing of the pages went: one outcome for each job that was
    /// handed out, in order; those behind one that failed may be left out.
    pub fn written(&mut self, outcomes: Vec<PageOutcome>) -> (r: Step)
        requires
            publication_valid(*old(self)),
            old(self).stage == Stage::Headings || old(self).stage == Stage::Content,
            answers(outcomes, jobs_at_hand(*old(self))),
        ensures
            publication_valid(*final(self)),
            same_pages(*final(self), *old(self)),
            ({
                let first = first_failed_write(outcomes.deep_view());
                if first < outcomes@.len() {
                    &&& final(self).stage == Stage::Over
                    &&& r.lines@.len() == 0
                    &&& r.action matches Action::Fail(f)
                    &&& f.deep_view() == write_error(
                        old(self).vault.deep_view(),
                        old(self).creation,
                        outcomes.deep_view()[first],
                    )
                } else {
                    &&& final(self).headings.deep_view() == noted(
                        old(self).headings.deep_view(),
                        outcomes.deep_view(),
                        outcomes@.len() as int,
                    )
                    &&& if old(self).stage == Stage::Headings {
                        &&& final(self).stage == Stage::Content
                        &&& r.lines@.len() == 0
                        &&& r.action matches Action::Write(jobs)
                        &&& jobs.deep_view() == jobs_of(
                            *final(self),
                            Round::Content,
                            final(self).headings.deep_view(),
                        )
                        &&& final(self).block_count == content::capped_sum(
                            old(self).block_count as nat,
                            content::jobs_count(jobs.deep_view()),
                        )
                    } else {
                        &&& final(self).stage == Stage::Reading
                        &&& final(self).block_count == old(self).block_count
                        &&& r.lines.deep_view() == seq!["Post-validating..."@]
                        &&& r.action matches Action::Read(ids)
                        &&& ids.deep_view() == reads_of(*final(self)).map_values(
                            |x: (Seq<char>, int)| x.0,
                        )
                    }
                }
            }),
    {
        let ghost vv = self.vault.deep_view();
        let failed: usize = failed_write(&outcomes);
        if failed < outcomes.len() {
            self.stage = Stage::Over;
            let ghost o = outcomes.deep_view()[failed as int];
            assert(o == outcomes@[failed as int].deep_view());
            proof {
                assert(o.writer.writes
                    == outcomes@[failed as int].writer.job.deep_view().writes);
                content::lemma_job_nodes(
                    vv,
                    self.vault_dir.deep_view(),
                    round_at(old(self).stage),
                    page_ids_of(self.creation),
                    links_of(*self),
                    self.headings.deep_view(),
                    failed as int,
                    o.writer.current,
                );
            }
            let outcome: &PageOutcome = &outcomes[failed];
            let current: usize = outcome.writer.current;
            let heading: bool = outcome.writer.job.writes[current].heading;
            let node: usize = outcome.writer.job.writes[current].node;
            assert(o.writer.writes[current as int]
                == outcome.writer.job.writes[current as int].deep_view());
            assert(vv.nodes[node as int] == self.vault.nodes[node as int].deep_view());
            let source: NotionError = match &outcome.error {
                Some(e) => e.clone(),
                None => NotionError::Transport(String::new()),
            };
            let root_url: String = self.root_url();
            let error: RunError = content::write_failure(
                &self.vault.nodes[node],
                heading,
                source,
                root_url.as_str(),
            );
            return Step { lines: Vec::new(), action: Action::Fail(error) };
        }
        assert forall|k: int| 0 <= k < outcomes@.len() implies notion::writer_valid(
            (#[trigger] outcomes@[k]).writer.deep_view(),
        ) by {
            assert(outcome_valid(outcomes@[k].deep_view()));
        }
        self.note_headings(&outcomes);
        match self.stage {
            Stage::Headings => {
                let jobs: Vec<PageJob> = self.hand_out(Round::Content);
                self.stage = Stage::Content;
                Step { lines: Vec::new(), action: Action::Write(jobs) }
            },
            _ => {
                proof {
                    content::lemma_all_linked(
                        vv,
                        self.vault_dir.deep_view(),
                        page_ids_of(self.creation),
                    );
                }
                self.reads = content::validation_pages(&self.vault, &self.links);
                self.stage = Stage::Reading;
                let ids: Vec<String> = self.read_ids();
                let mut lines: Vec<String> = Vec::new();
                lines.push("Post-validating...".to_owned());
                assert(lines.deep_view() =~= seq!["Post-validating..."@]);
                Step { lines, action: Action::Read(ids) }
            },
        }
    }

    fn read_ids(&self) -> (r: Vec<String>)
        ensures
            r.deep_view() == self.reads.deep_view().map_values(|x: (Seq<char>, int)| x.0),
    {
        let ghost target = self.reads.deep_view().map_values(|x: (Seq<char>, int)| x.0);
        let mut ids: Vec<String> = Vec::new();
        let mut k: usize = 0;
        while k < self.reads.len()
            invariant
                target == self.reads.deep_view().map_values(|x: (Seq<char>, int)| x.0),
                k <= self.reads@.len(),
                ids.deep_view() == target.take(k as int),
            decreases self.reads.len() - k,
        {
            let ghost before = ids.deep_view();
            assert(target[k as int] == self.reads[k as int].deep_view().0);
            let id: String = self.reads[k].page_id.clone();
            ids.push(id);
            assert(ids.deep_view() =~= before.push(id@));
            assert(target.take(k + 1) =~= target.take(k as int).push(target[k as int]));
            k = k + 1;
        }
        assert(target.take(k as int) =~= target);
        ids
    }

    /// Takes what was found on the pages, in order; pages behind one that could
    /// not be read may be left out.
    ///
    /// The run succeeds exactly when every page was read and every link of
    /// every node was found on the node's page.
    pub fn read(&mut self, replies: Vec<PageReply>) -> (r: Step)
        requires
            publication_valid(*old(self)),
            old(self).stage == Stage::Reading,
            replies@.len() <= old(self).reads@.len(),
            first_failed_read(replies.deep_view()) == replies@.len() ==> replies@.len() == old(self).reads@.len(),
        ensures
            publication_valid(*final(self)),
            same_pages(*final(self), *old(self)),
            final(self).stage == Stage::Over,
            r.lines@.len() == 0,
            ({
                let v = old(self).vault.deep_view();
                let rs = replies.deep_view();
                let first = first_failed_read(rs);
                let root_url = pages::root_url_of(old(self).creation.created.deep_view());
                let failed = content::failed_nodes(
                    v.nodes,
                    links_of(*old(self)),
                    found_in(rs),
                    v.nodes.len() as int,
                );
                match r.action {
                    Action::Finish(report) => {
                        &&& first == rs.len()
                        &&& failed.len() == 0
                        &&& report.node_count == v.nodes.len()
                        &&& report.block_count == old(self).block_count
                        &&& report.root_url.deep_view() == root_url
                    },
                    Action::Fail(e) => if first < rs.len() {
                        e.deep_view() == (RunErrorView::Api {
                            context: "post-validation read failed for node "@ + text::debug_quoted(
                                v.nodes[reads_of(*old(self))[first].1].title,
                            ),
                            source: rs[first]->Failed_0,
                            root_url,
                        })
                    } else {
                        failed.len() > 0 && root_url is Some && e.deep_view() == (
                        RunErrorView::PostValidation { root_url: root_url->0, failures: failed })
                    },
                    _ => false,
                }
            }),
    {
        let ghost vv = self.vault.deep_view();
        let ghost rs = replies.deep_view();
        let root_url: String = self.root_url();
        let failed: usize = failed_read(&replies);
        self.stage = Stage::Over;
        if failed < replies.len() {
            let node: usize = self.reads[failed].node;
            proof {
                assert(self.reads.deep_view()[failed as int]
                    == self.reads[failed as int].deep_view());
                content::lemma_reads_nodes(
                    vv.nodes,
                    links_of(*self),
                    vv.nodes.len() as int,
                    failed as int,
                );
                assert(vv.nodes[node as int] == self.vault.nodes[node as int].deep_view());
                assert(rs[failed as int] == replies[failed as int].deep_view());
            }
            let source: NotionError = match &replies[failed] {
                PageReply::Failed(e) => e.clone(),
                PageReply::Found(_) => NotionError::Transport(String::new()),
            };
            let error: RunError = content::read_failure(
                &self.vault.nodes[node],
                source,
                root_url.as_str(),
            );
            return Step { lines: Vec::new(), action: Action::Fail(error) };
        }
        let found: Vec<FoundLinks> = all_found(replies);
        proof {
            content::lemma_all_linked(
                vv,
                self.vault_dir.deep_view(),
                page_ids_of(self.creation),
            );
        }
        match content::post_validation(
            &self.vault,
            &self.links,
            &self.reads,
            &found,
            root_url.as_str(),
        ) {
            Ok(_) => {
                let report: RunReport = RunReport {
                    node_count: self.vault.nodes.len(),
                    block_count: self.block_count,
                    root_url: Some(root_url),
                };
                Step { lines: Vec::new(), action: Action::Finish(report) }
            },
            Err(e) => Step { lines: Vec::new(), action: Action::Fail(e) },
        }
    }
}

} // verus!
