//! How content goes to Notion and comes back: in requests of limited size, in
//! order, and following cursors and nested children.
//!
//! Each type here decides one request at a time: `next` says what to ask of
//! the API, and `accept` takes the answer.

use crate::blocks::{Block, BlockView};
use crate::ports::{AppendPosition, ChildBlock, ChildBlockView, ChildrenPage, PositionView};
use vstd::prelude::*;

verus! {

/// The Notion API version that every request names.
pub const NOTION_VERSION: &'static str = "2026-03-11";

/// Notion's limit on the children of one append request.
pub const MAX_CHILDREN_PER_REQUEST: usize = 100;

// ---------------------------------------------------------------------
// Appending in chunks
// ---------------------------------------------------------------------

/// One append request: the blocks `from..to`, and where they go.
#[derive(Debug, PartialEq, Eq)]
pub struct Chunk {
    pub from: usize,
    pub to: usize,
    pub position: AppendPosition,
}

/// Appends a list of blocks in chunks, in order.
pub struct Appender {
    /// The number of blocks.
    pub total: usize,
    /// The number of blocks that have been sent.
    pub sent: usize,
    /// Where the next chunk goes.
    pub position: AppendPosition,
    /// The IDs that Notion gave the blocks sent so far.
    pub ids: Vec<String>,
}

/// The model of an appender.
#[verifier::ext_equal]
pub struct AppenderView {
    pub total: int,
    pub sent: int,
    pub position: PositionView,
    pub ids: Seq<Seq<char>>,
}

impl DeepView for Appender {
    type V = AppenderView;

    open spec fn deep_view(&self) -> AppenderView {
        AppenderView {
            total: self.total as int,
            sent: self.sent as int,
            position: self.position.deep_view(),
            ids: self.ids.deep_view(),
        }
    }
}

/// An appender that has sent nothing.
pub open spec fn appender_start(total: int, position: PositionView) -> AppenderView {
    AppenderView { total, sent: 0, position, ids: Seq::<Seq<char>>::empty() }
}

/// The end of the next chunk.
pub open spec fn chunk_end(a: AppenderView) -> int {
    if a.total - a.sent > MAX_CHILDREN_PER_REQUEST {
        a.sent + MAX_CHILDREN_PER_REQUEST
    } else {
        a.total
    }
}

/// Where the chunk behind one that went to `p` goes: to the end again, or
/// behind the last block of that chunk.
pub open spec fn next_position(p: PositionView, ids: Seq<Seq<char>>) -> PositionView {
    match p {
        PositionView::End => PositionView::End,
        PositionView::After { .. } => if ids.len() > 0 {
            PositionView::After { after_id: ids.last() }
        } else {
            p
        },
    }
}

/// The appender after Notion took a chunk and gave its blocks these IDs.
pub open spec fn appender_next(a: AppenderView, ids: Seq<Seq<char>>) -> AppenderView {
    AppenderView {
        total: a.total,
        sent: chunk_end(a),
        position: next_position(a.position, ids),
        ids: a.ids + ids,
    }
}

fn copy_position(p: &AppendPosition) -> (r: AppendPosition)
    ensures
        r.deep_view() == p.deep_view(),
{
    match p {
        AppendPosition::End => AppendPosition::End,
        AppendPosition::After { after_id } => AppendPosition::After { after_id: after_id.clone() },
    }
}

impl Appender {
    /// An appender for `total` blocks.
    pub fn new(total: usize, position: AppendPosition) -> (r: Appender)
        ensures
            r.deep_view() == appender_start(total as int, position.deep_view()),
    {
        let r: Appender = Appender { total, sent: 0, position, ids: Vec::new() };
        assert(r.ids.deep_view() =~= Seq::<Seq<char>>::empty());
        r
    }

    /// The next request; none when all blocks have been sent.
    pub fn next(&self) -> (r: Option<Chunk>)
        ensures
            match r {
                Some(c) => self.sent < self.total && c.from == self.sent && c.to == chunk_end(
                    self.deep_view(),
                ) && c.position.deep_view() == self.position.deep_view(),
                None => self.sent >= self.total,
            },
    {
        if self.sent >= self.total {
            return None;
        }
        let to: usize = if self.total - self.sent > MAX_CHILDREN_PER_REQUEST {
            self.sent + MAX_CHILDREN_PER_REQUEST
        } else {
            self.total
        };
        Some(Chunk { from: self.sent, to, position: copy_position(&self.position) })
    }

    /// Takes the IDs that Notion gave the blocks of the chunk.
    pub fn accept(&mut self, ids: Vec<String>)
        requires
            old(self).sent < old(self).total,
        ensures
            final(self).deep_view() == appender_next(old(self).deep_view(), ids.deep_view()),
    {
        let ghost start = self.deep_view();
        let to: usize = if self.total - self.sent > MAX_CHILDREN_PER_REQUEST {
            self.sent + MAX_CHILDREN_PER_REQUEST
        } else {
            self.total
        };
        let ghost new = ids.deep_view();
        let anchored: bool = match &self.position {
            AppendPosition::End => false,
            AppendPosition::After { .. } => true,
        };
        if anchored && ids.len() > 0 {
            assert(new.last() == ids[ids.len() - 1]@);
            self.position = AppendPosition::After { after_id: ids[ids.len() - 1].clone() };
        }
        self.sent = to;
        let mut ids: Vec<String> = ids;
        self.ids.append(&mut ids);
        assert(self.ids.deep_view() =~= start.ids + new);
    }
}

// ---------------------------------------------------------------------
// The writes of one page
// ---------------------------------------------------------------------

/// Blocks that go to a page together, on behalf of one node.
pub struct Write {
    /// The position of the node in the vault.
    pub node: usize,
    /// Whether this is the heading that introduces the node, not its content.
    pub heading: bool,
    /// The blocks.
    pub blocks: Vec<Block>,
    /// Where they go.
    pub position: AppendPosition,
}

/// The model of a write.
pub struct WriteView {
    pub node: int,
    pub heading: bool,
    pub blocks: Seq<BlockView>,
    pub position: PositionView,
}

impl DeepView for Write {
    type V = WriteView;

    open spec fn deep_view(&self) -> WriteView {
        WriteView {
            node: self.node as int,
            heading: self.heading,
            blocks: self.blocks.deep_view(),
            position: self.position.deep_view(),
        }
    }
}

/// What goes to one page, in order.
pub struct PageJob {
    pub page_id: String,
    pub writes: Vec<Write>,
}

/// The model of a job.
pub struct JobView {
    pub page_id: Seq<char>,
    pub writes: Seq<WriteView>,
}

impl DeepView for PageJob {
    type V = JobView;

    open spec fn deep_view(&self) -> JobView {
        JobView { page_id: self.page_id@, writes: self.writes.deep_view() }
    }
}

/// Works through the writes of one page, one request at a time.
pub struct PageWriter {
    pub job: PageJob,
    /// The write at hand.
    pub current: usize,
    /// How far it has come.
    pub appender: Appender,
    /// For each write done, the ID of its first block.
    pub first_ids: Vec<Option<String>>,
}

/// The model of a page writer.
#[verifier::ext_equal]
pub struct WriterView {
    pub writes: Seq<WriteView>,
    pub current: int,
    pub appender: AppenderView,
    pub first_ids: Seq<Option<Seq<char>>>,
}

impl DeepView for PageWriter {
    type V = WriterView;

    open spec fn deep_view(&self) -> WriterView {
        WriterView {
            writes: self.job.writes.deep_view(),
            current: self.current as int,
            appender: self.appender.deep_view(),
            first_ids: self.first_ids.deep_view(),
        }
    }
}

/// The appender of the `i`th write; behind the last one there is nothing to
/// send.
pub open spec fn write_appender(writes: Seq<WriteView>, i: int) -> AppenderView {
    if 0 <= i < writes.len() {
        appender_start(writes[i].blocks.len() as int, writes[i].position)
    } else {
        appender_start(0, PositionView::End)
    }
}

/// The first of some IDs.
pub open spec fn first_of(ids: Seq<Seq<char>>) -> Option<Seq<char>> {
    if ids.len() > 0 {
        Some(ids[0])
    } else {
        None
    }
}

/// The writer with the write at hand done.
pub open spec fn advanced(w: WriterView) -> WriterView {
    WriterView {
        writes: w.writes,
        current: w.current + 1,
        appender: write_appender(w.writes, w.current + 1),
        first_ids: w.first_ids.push(first_of(w.appender.ids)),
    }
}

/// The writer past the writes that have nothing left to send.
pub open spec fn settled(w: WriterView) -> WriterView
    decreases w.writes.len() - w.current,
{
    if w.current < w.writes.len() && w.appender.sent >= w.appender.total {
        settled(advanced(w))
    } else {
        w
    }
}

/// The writer of a job that has sent nothing.
pub open spec fn writer_start(writes: Seq<WriteView>) -> WriterView {
    settled(
        WriterView {
            writes,
            current: 0,
            appender: write_appender(writes, 0),
            first_ids: Seq::<Option<Seq<char>>>::empty(),
        },
    )
}

/// The writer after Notion took a request.
pub open spec fn writer_next(w: WriterView, ids: Seq<Seq<char>>) -> WriterView {
    settled(WriterView { appender: appender_next(w.appender, ids), ..w })
}

/// Whether a writer is at a write with blocks left to send, or behind the last
/// write.
pub open spec fn writer_valid(w: WriterView) -> bool {
    &&& 0 <= w.current <= w.writes.len()
    &&& w.current < w.writes.len() ==> {
        &&& w.appender.total == w.writes[w.current].blocks.len()
        &&& 0 <= w.appender.sent < w.appender.total
    }
    &&& w.first_ids.len() == w.current
}

/// One request of a writer.
#[derive(Debug, PartialEq, Eq)]
pub struct WriteRequest {
    /// The write that the blocks belong to.
    pub write: usize,
    /// Which of its blocks, and where they go.
    pub chunk: Chunk,
}

fn first_id(ids: &Vec<String>) -> (r: Option<String>)
    ensures
        r.deep_view() == first_of(ids.deep_view()),
{
    if ids.len() > 0 {
        Some(ids[0].clone())
    } else {
        None
    }
}

fn appender_of(writes: &Vec<Write>, i: usize) -> (r: Appender)
    ensures
        r.deep_view() == write_appender(writes.deep_view(), i as int),
{
    if i < writes.len() {
        assert(writes.deep_view()[i as int] == writes[i as int].deep_view());
        Appender::new(writes[i].blocks.len(), copy_position(&writes[i].position))
    } else {
        Appender::new(0, AppendPosition::End)
    }
}

impl PageWriter {
    /// A writer for a job.
    pub fn new(job: PageJob) -> (r: PageWriter)
        ensures
            r.deep_view() == writer_start(job.deep_view().writes),
            r.job == job,
            writer_valid(r.deep_view()),
    {
        let appender: Appender = appender_of(&job.writes, 0);
        let mut w: PageWriter = PageWriter { job, current: 0, appender, first_ids: Vec::new() };
        assert(w.first_ids.deep_view() =~= Seq::<Option<Seq<char>>>::empty());
        w.settle();
        w
    }

    fn settle(&mut self)
        requires
            old(self).current <= old(self).job.writes@.len(),
            old(self).current < old(self).job.writes@.len() ==> old(self).appender.total == old(
                self,
            ).deep_view().writes[old(self).current as int].blocks.len(),
            old(self).first_ids@.len() == old(self).current,
        ensures
            final(self).deep_view() == settled(old(self).deep_view()),
            final(self).job == old(self).job,
            writer_valid(final(self).deep_view()),
    {
        let ghost start = self.deep_view();
        while self.current < self.job.writes.len() && self.appender.sent >= self.appender.total
            invariant
                settled(self.deep_view()) == settled(start),
                self.job == old(self).job,
                self.current <= self.job.writes@.len(),
                self.current < self.job.writes@.len() ==> self.appender.total
                    == self.deep_view().writes[self.current as int].blocks.len(),
                self.first_ids@.len() == self.current,
            decreases self.job.writes.len() - self.current,
        {
            let ghost before = self.deep_view();
            let id: Option<String> = first_id(&self.appender.ids);
            self.first_ids.push(id);
            self.current = self.current + 1;
            self.appender = appender_of(&self.job.writes, self.current);
            assert(self.first_ids.deep_view() =~= before.first_ids.push(id.deep_view()));
            assert(self.deep_view() =~= advanced(before));
        }
    }

    /// The next request; none when everything has been sent.
    pub fn next(&self) -> (r: Option<WriteRequest>)
        requires
            writer_valid(self.deep_view()),
        ensures
            match r {
                Some(req) => {
                    &&& req.write == self.current
                    &&& req.write < self.job.writes@.len()
                    &&& req.chunk.from == self.appender.sent
                    &&& req.chunk.to == chunk_end(self.appender.deep_view())
                    &&& req.chunk.from < req.chunk.to <= self.job.writes[req.write as int].blocks@.len()
                    &&& req.chunk.position.deep_view() == self.appender.position.deep_view()
                },
                None => self.current == self.job.writes@.len(),
            },
    {
        if self.current >= self.job.writes.len() {
            return None;
        }
        assert(self.deep_view().writes[self.current as int]
            == self.job.writes[self.current as int].deep_view());
        match self.appender.next() {
            Some(chunk) => Some(WriteRequest { write: self.current, chunk }),
            None => None,
        }
    }

    /// Takes the IDs that Notion gave the blocks of the request.
    pub fn accept(&mut self, ids: Vec<String>)
        requires
            writer_valid(old(self).deep_view()),
            old(self).current < old(self).job.writes@.len(),
        ensures
            final(self).deep_view() == writer_next(old(self).deep_view(), ids.deep_view()),
            final(self).job == old(self).job,
            writer_valid(final(self).deep_view()),
    {
        self.appender.accept(ids);
        self.settle();
    }
}

// ---------------------------------------------------------------------
// Reading back
// ---------------------------------------------------------------------

/// One request for the children of a block.
#[derive(Debug, Clone, PartialEq, Eq)]
pub struct ListRequest {
    pub block_id: String,
    pub cursor: Option<String>,
}

/// The model of a request for children.
pub struct ListRequestView {
    pub block_id: Seq<char>,
    pub cursor: Option<Seq<char>>,
}

impl DeepView for ListRequest {
    type V = ListRequestView;

    open spec fn deep_view(&self) -> ListRequestView {
        ListRequestView { block_id: self.block_id@, cursor: self.cursor.deep_view() }
    }
}

/// Reads everything nested under a block, depth first: a block's children come
/// before its next sibling.
pub struct ChildrenWalk {
    /// The blocks passed so far.
    pub out: Vec<ChildBlock>,
    /// The siblings still to pass, level by level, each list reversed.
    pub stack: Vec<Vec<ChildBlock>>,
    /// The children being fetched.
    pub request: Option<ListRequest>,
    /// Those of them that have come so far.
    pub fetched: Vec<ChildBlock>,
}

/// The model of a walk. The lists on the stack are in order here.
#[verifier::ext_equal]
pub struct WalkView {
    pub out: Seq<ChildBlockView>,
    pub stack: Seq<Seq<ChildBlockView>>,
    pub request: Option<ListRequestView>,
    pub fetched: Seq<ChildBlockView>,
}

impl DeepView for ChildrenWalk {
    type V = WalkView;

    open spec fn deep_view(&self) -> WalkView {
        WalkView {
            out: self.out.deep_view(),
            stack: self.stack.deep_view().map_values(|l: Seq<ChildBlockView>| l.reverse()),
            request: self.request.deep_view(),
            fetched: self.fetched.deep_view(),
        }
    }
}

/// The walk that starts at a block.
pub open spec fn walk_start(block_id: Seq<char>) -> WalkView {
    WalkView {
        out: Seq::<ChildBlockView>::empty(),
        stack: Seq::<Seq<ChildBlockView>>::empty(),
        request: Some(ListRequestView { block_id, cursor: None }),
        fetched: Seq::<ChildBlockView>::empty(),
    }
}

/// The number of blocks on the stack, and of levels.
pub open spec fn stack_size(stack: Seq<Seq<ChildBlockView>>) -> int
    decreases stack.len(),
{
    if stack.len() == 0 {
        0
    } else {
        stack_size(stack.drop_last()) + stack.last().len() + 1
    }
}

proof fn lemma_stack_size(stack: Seq<Seq<ChildBlockView>>)
    ensures
        stack_size(stack) >= 0,
    decreases stack.len(),
{
    if stack.len() > 0 {
        lemma_stack_size(stack.drop_last());
    }
}

/// The walk up to the next block with children, or to its end.
pub open spec fn passed(w: WalkView) -> WalkView
    decreases stack_size(w.stack),
    via passed_decreases
{
    if w.stack.len() == 0 {
        w
    } else if w.stack.last().len() == 0 {
        passed(WalkView { stack: w.stack.drop_last(), ..w })
    } else {
        let child = w.stack.last().first();
        let rest = WalkView {
            out: w.out.push(child),
            stack: w.stack.drop_last().push(w.stack.last().drop_first()),
            ..w
        };
        if child.has_children {
            WalkView {
                request: Some(ListRequestView { block_id: child.id, cursor: None }),
                fetched: Seq::<ChildBlockView>::empty(),
                ..rest
            }
        } else {
            passed(rest)
        }
    }
}

#[via_fn]
proof fn passed_decreases(w: WalkView) {
    if w.stack.len() > 0 {
        lemma_stack_size(w.stack.drop_last());
        if w.stack.last().len() > 0 {
            let s = w.stack.drop_last().push(w.stack.last().drop_first());
            assert(s.drop_last() =~= w.stack.drop_last());
        }
    }
}

/// The walk after one page of results came.
pub open spec fn walk_next(
    w: WalkView,
    page: Seq<ChildBlockView>,
    next_cursor: Option<Seq<char>>,
) -> WalkView {
    let fetched = w.fetched + page;
    match (w.request, next_cursor) {
        (None, _) => w,
        (Some(r), Some(c)) => WalkView {
            request: Some(ListRequestView { block_id: r.block_id, cursor: Some(c) }),
            fetched,
            ..w
        },
        (Some(_), None) => passed(
            WalkView {
                out: w.out,
                stack: w.stack.push(fetched),
                request: None,
                fetched: Seq::<ChildBlockView>::empty(),
            },
        ),
    }
}

fn reversed(v: Vec<ChildBlock>) -> (r: Vec<ChildBlock>)
    ensures
        r.deep_view() == v.deep_view().reverse(),
{
    let mut v: Vec<ChildBlock> = v;
    let ghost all = v.deep_view();
    let mut out: Vec<ChildBlock> = Vec::new();
    while v.len() > 0
        invariant
            v.deep_view() == all.take(v@.len() as int),
            v@.len() <= all.len(),
            out.deep_view() == all.skip(v@.len() as int).reverse(),
        decreases v.len(),
    {
        let ghost n = v@.len() as int;
        let ghost before = out.deep_view();
        let ghost was = v.deep_view();
        let b: ChildBlock = v.pop().unwrap();
        assert(was[n - 1] == b.deep_view());
        assert(v.deep_view() =~= all.take(n - 1));
        out.push(b);
        assert(out.deep_view() =~= before.push(b.deep_view()));
        assert(out.deep_view() =~= all.skip(n - 1).reverse());
    }
    assert(all.skip(0) =~= all);
    out
}

impl ChildrenWalk {
    /// A walk that starts at a block.
    pub fn new(block_id: &str) -> (r: ChildrenWalk)
        ensures
            r.deep_view() == walk_start(block_id@),
    {
        let r: ChildrenWalk = ChildrenWalk {
            out: Vec::new(),
            stack: Vec::new(),
            request: Some(ListRequest { block_id: block_id.to_owned(), cursor: None }),
            fetched: Vec::new(),
        };
        assert(r.deep_view() =~= walk_start(block_id@));
        r
    }

    /// The next request; none when everything has been read.
    pub fn next(&self) -> (r: Option<ListRequest>)
        ensures
            r.deep_view() == self.deep_view().request,
    {
        match &self.request {
            Some(q) => Some(ListRequest { block_id: q.block_id.clone(), cursor: q.cursor.clone() }),
            None => None,
        }
    }

    fn pass(&mut self)
        requires
            old(self).request is None,
        ensures
            final(self).deep_view() == passed(old(self).deep_view()),
    {
        let ghost start = self.deep_view();
        while self.stack.len() > 0
            invariant
                self.request is None,
                start == old(self).deep_view(),
                passed(self.deep_view()) == passed(start),
            decreases stack_size(self.deep_view().stack),
        {
            let ghost before = self.deep_view();
            proof {
                lemma_stack_size(before.stack.drop_last());
            }
            let mut top: Vec<ChildBlock> = self.stack.pop().unwrap();
            let ghost level = top.deep_view();
            assert(before.stack.last() == level.reverse());
            assert(self.deep_view().stack =~= before.stack.drop_last());
            if top.len() > 0 {
                let child: ChildBlock = top.pop().unwrap();
                let ghost c = child.deep_view();
                proof {
                    assert(level.last() == c);
                    assert(top.deep_view() =~= level.drop_last());
                    assert(level.reverse().first() == c);
                    assert(level.drop_last().reverse() =~= level.reverse().drop_first());
                }
                let has_children: bool = child.has_children;
                let id: String = child.id.clone();
                self.out.push(child);
                self.stack.push(top);
                proof {
                    assert(self.out.deep_view() =~= before.out.push(c));
                    assert(self.deep_view().stack =~= before.stack.drop_last().push(
                        before.stack.last().drop_first(),
                    ));
                    assert(self.deep_view().stack.drop_last() =~= before.stack.drop_last());
                }
                if has_children {
                    self.request = Some(ListRequest { block_id: id, cursor: None });
                    self.fetched = Vec::new();
                    assert(self.fetched.deep_view() =~= Seq::<ChildBlockView>::empty());
                    assert(self.deep_view() =~= passed(before));
                    return;
                }
                assert(passed(self.deep_view()) == passed(before));
            } else {
                assert(passed(self.deep_view()) == passed(before));
            }
        }
    }

    /// Takes one page of results.
    pub fn accept(&mut self, page: ChildrenPage)
        ensures
            final(self).deep_view() == walk_next(
                old(self).deep_view(),
                page.blocks.deep_view(),
                page.next_cursor.deep_view(),
            ),
    {
        let ghost before = self.deep_view();
        let ghost new = page.blocks.deep_view();
        if self.request.is_none() {
            return;
        }
        let mut blocks: Vec<ChildBlock> = page.blocks;
        self.fetched.append(&mut blocks);
        assert(self.fetched.deep_view() =~= before.fetched + new);
        match page.next_cursor {
            Some(c) => {
                let id: String = match &self.request {
                    Some(q) => q.block_id.clone(),
                    None => String::new(),
                };
                self.request = Some(ListRequest { block_id: id, cursor: Some(c) });
            },
            None => {
                let mut level: Vec<ChildBlock> = Vec::new();
                std::mem::swap(&mut level, &mut self.fetched);
                let ghost ordered = level.deep_view();
                let flipped: Vec<ChildBlock> = reversed(level);
                self.stack.push(flipped);
                self.request = None;
                proof {
                    assert(self.fetched.deep_view() =~= Seq::<ChildBlockView>::empty());
                    assert(flipped.deep_view().reverse() =~= ordered);
                    assert(self.deep_view().stack =~= before.stack.push(ordered));
                }
                self.pass();
            },
        }
    }
}

// ---------------------------------------------------------------------
// Laws of appending
// ---------------------------------------------------------------------

/// The blocks of a page, each with its ID.
pub type PageItems = Seq<(Seq<char>, BlockView)>;

/// Blocks with the IDs that Notion gave them.
pub open spec fn items(ids: Seq<Seq<char>>, blocks: Seq<BlockView>) -> PageItems {
    Seq::new(blocks.len(), |i: int| (ids[i], blocks[i]))
}

/// The first position of the block with an ID, or the number of blocks.
pub open spec fn item_index(page: PageItems, id: Seq<char>) -> int
    decreases page.len(),
{
    if page.len() == 0 || page.first().0 == id {
        0
    } else {
        1 + item_index(page.drop_first(), id)
    }
}

/// The page after blocks were appended at a position.
pub open spec fn appended(page: PageItems, new: PageItems, position: PositionView) -> PageItems {
    match position {
        PositionView::End => page + new,
        PositionView::After { after_id } => {
            let k = item_index(page, after_id);
            if k < page.len() {
                page.take(k + 1) + new + page.skip(k + 1)
            } else {
                page + new
            }
        },
    }
}

/// The page after an appender has sent what it has left, where `ids` are the
/// IDs that Notion gives the blocks.
pub open spec fn appended_in_chunks(
    page: PageItems,
    blocks: Seq<BlockView>,
    ids: Seq<Seq<char>>,
    a: AppenderView,
) -> PageItems
    decreases a.total - a.sent,
{
    if a.sent >= a.total {
        page
    } else {
        let to = chunk_end(a);
        let new_ids = ids.subrange(a.sent, to);
        let new = items(new_ids, blocks.subrange(a.sent, to));
        appended_in_chunks(
            appended(page, new, a.position),
            blocks,
            ids,
            appender_next(a, new_ids),
        )
    }
}

/// Whether IDs differ from one another and from those on a page.
pub open spec fn fresh(ids: Seq<Seq<char>>, page: PageItems) -> bool {
    &&& ids.no_duplicates()
    &&& forall|i: int, j: int|
        #![trigger ids[i], page[j]]
        0 <= i < ids.len() && 0 <= j < page.len() ==> ids[i] != page[j].0
}

/// Whether the block that a position names is on the page.
pub open spec fn position_on(position: PositionView, page: PageItems) -> bool {
    match position {
        PositionView::End => true,
        PositionView::After { after_id } => item_index(page, after_id) < page.len(),
    }
}

/// Where the first block with an ID stands.
pub proof fn lemma_item_index(page: PageItems, id: Seq<char>, k: int)
    requires
        0 <= k < page.len(),
        page[k].0 == id,
        forall|j: int| 0 <= j < k ==> (#[trigger] page[j]).0 != id,
    ensures
        item_index(page, id) == k,
    decreases page.len(),
{
    if k > 0 {
        let t = page.drop_first();
        assert(page.first() == page[0]);
        assert(t[k - 1] == page[k]);
        assert forall|j: int| 0 <= j < k - 1 implies (#[trigger] t[j]).0 != id by {
            assert(t[j] == page[j + 1]);
        }
        lemma_item_index(t, id, k - 1);
    }
}

proof fn lemma_item_index_range(page: PageItems, id: Seq<char>)
    ensures
        0 <= item_index(page, id) <= page.len(),
        item_index(page, id) < page.len() ==> page[item_index(page, id)].0 == id,
        forall|j: int| 0 <= j < item_index(page, id) ==> (#[trigger] page[j]).0 != id,
    decreases page.len(),
{
    if page.len() > 0 && page.first().0 != id {
        let t = page.drop_first();
        lemma_item_index_range(t, id);
        assert forall|j: int| 0 <= j < item_index(page, id) implies (#[trigger] page[j]).0
            != id by {
            if j > 0 {
                assert(page[j] == t[j - 1]);
            }
        }
    }
}

/// Where the next chunk goes when the first `s` blocks have been sent.
spec fn position_after(position: PositionView, ids: Seq<Seq<char>>, s: int) -> PositionView {
    match position {
        PositionView::End => PositionView::End,
        PositionView::After { .. } => if s > 0 {
            PositionView::After { after_id: ids[s - 1] }
        } else {
            position
        },
    }
}

proof fn lemma_one_chunk(
    page: PageItems,
    blocks: Seq<BlockView>,
    ids: Seq<Seq<char>>,
    position: PositionView,
    s: int,
    to: int,
)
    requires
        0 <= s <= to <= blocks.len(),
        ids.len() == blocks.len(),
        fresh(ids, page),
        position_on(position, page),
    ensures
        appended(
            appended(page, items(ids.take(s), blocks.take(s)), position),
            items(ids.subrange(s, to), blocks.subrange(s, to)),
            position_after(position, ids, s),
        ) == appended(page, items(ids.take(to), blocks.take(to)), position),
{
    let sent = items(ids.take(s), blocks.take(s));
    let new = items(ids.subrange(s, to), blocks.subrange(s, to));
    let all = items(ids.take(to), blocks.take(to));
    assert(all =~= sent + new);
    let before = appended(page, sent, position);
    match position {
        PositionView::End => {
            assert(before + new =~= page + all);
        },
        PositionView::After { after_id } => {
            let k = item_index(page, after_id);
            lemma_item_index_range(page, after_id);
            if s == 0 {
                assert(before =~= page);
                assert(all =~= new);
            } else {
                let last = ids[s - 1];
                assert(before[k + s].0 == last);
                assert forall|j: int| 0 <= j < k + s implies (#[trigger] before[j]).0 != last by {
                    if j <= k {
                        assert(before[j] == page[j]);
                    } else {
                        assert(before[j].0 == ids[j - k - 1]);
                    }
                }
                lemma_item_index(before, last, k + s);
                assert(before.take(k + s + 1) + new + before.skip(k + s + 1) =~= page.take(k + 1)
                    + all + page.skip(k + 1));
            }
        },
    }
}

proof fn lemma_chunks_from(
    page: PageItems,
    blocks: Seq<BlockView>,
    ids: Seq<Seq<char>>,
    position: PositionView,
    a: AppenderView,
)
    requires
        ids.len() == blocks.len(),
        fresh(ids, page),
        position_on(position, page),
        a.total == blocks.len(),
        0 <= a.sent <= a.total,
        a.position == position_after(position, ids, a.sent),
    ensures
        appended_in_chunks(
            appended(page, items(ids.take(a.sent), blocks.take(a.sent)), position),
            blocks,
            ids,
            a,
        ) == appended(page, items(ids, blocks), position),
    decreases a.total - a.sent,
{
    let s = a.sent;
    if s >= a.total {
        assert(ids.take(s) =~= ids);
        assert(blocks.take(s) =~= blocks);
    } else {
        let to = chunk_end(a);
        lemma_one_chunk(page, blocks, ids, position, s, to);
        let next = appender_next(a, ids.subrange(s, to));
        assert(ids.subrange(s, to).last() == ids[to - 1]);
        lemma_chunks_from(page, blocks, ids, position, next);
    }
}

/// Appending in chunks has the effect of appending everything at once: the
/// blocks come to stand together, in order, where the first was to go. No
/// chunk is larger than Notion takes.
pub proof fn law_chunks_append_in_order(
    page: PageItems,
    blocks: Seq<BlockView>,
    ids: Seq<Seq<char>>,
    position: PositionView,
    a: AppenderView,
)
    requires
        ids.len() == blocks.len(),
        fresh(ids, page),
        position_on(position, page),
    ensures
        appended_in_chunks(page, blocks, ids, appender_start(blocks.len() as int, position))
            == appended(page, items(ids, blocks), position),
        0 <= a.sent < a.total ==> a.sent < chunk_end(a) <= a.sent + MAX_CHILDREN_PER_REQUEST,
{
    let start = appender_start(blocks.len() as int, position);
    lemma_chunks_from(page, blocks, ids, position, start);
    let none = items(ids.take(0), blocks.take(0));
    match position {
        PositionView::End => {
            assert(page + none =~= page);
        },
        PositionView::After { after_id } => {
            let k = item_index(page, after_id);
            lemma_item_index_range(page, after_id);
            assert(page.take(k + 1) + none + page.skip(k + 1) =~= page);
        },
    }
}

/// The page after a writer has sent what it has left, where `ids[i]` are the
/// IDs that Notion gives the blocks of the `i`th write.
pub open spec fn writer_run(page: PageItems, ids: Seq<Seq<Seq<char>>>, w: WriterView) -> PageItems
    decreases w.writes.len() - w.current, w.appender.total - w.appender.sent,
    via writer_run_decreases
{
    if !writer_valid(w) || w.current >= w.writes.len() {
        page
    } else {
        let a = w.appender;
        let to = chunk_end(a);
        let new_ids = ids[w.current].subrange(a.sent, to);
        let new = items(new_ids, w.writes[w.current].blocks.subrange(a.sent, to));
        writer_run(appended(page, new, a.position), ids, writer_next(w, new_ids))
    }
}

proof fn lemma_settled(w: WriterView)
    requires
        0 <= w.current <= w.writes.len(),
        w.current < w.writes.len() ==> w.appender.total == w.writes[w.current].blocks.len()
            && w.appender.sent >= 0,
        w.first_ids.len() == w.current,
    ensures
        writer_valid(settled(w)),
        settled(w).writes == w.writes,
        settled(w).current >= w.current,
        settled(w).current == w.current ==> settled(w) == w,
    decreases w.writes.len() - w.current,
{
    if w.current < w.writes.len() && w.appender.sent >= w.appender.total {
        lemma_settled(advanced(w));
    }
}

#[via_fn]
proof fn writer_run_decreases(page: PageItems, ids: Seq<Seq<Seq<char>>>, w: WriterView) {
    if writer_valid(w) && w.current < w.writes.len() {
        let new_ids = ids[w.current].subrange(w.appender.sent, chunk_end(w.appender));
        lemma_settled(WriterView { appender: appender_next(w.appender, new_ids), ..w });
    }
}

/// The page after the writes from the `k`th on, each in its own chunks.
pub open spec fn writes_in_chunks(
    page: PageItems,
    writes: Seq<WriteView>,
    ids: Seq<Seq<Seq<char>>>,
    k: int,
) -> PageItems
    decreases writes.len() - k,
{
    if k >= writes.len() {
        page
    } else {
        writes_in_chunks(
            appended_in_chunks(page, writes[k].blocks, ids[k], write_appender(writes, k)),
            writes,
            ids,
            k + 1,
        )
    }
}

proof fn lemma_writer_run(page: PageItems, ids: Seq<Seq<Seq<char>>>, w: WriterView)
    requires
        0 <= w.current <= w.writes.len(),
        w.current < w.writes.len() ==> w.appender.total == w.writes[w.current].blocks.len()
            && w.appender.sent >= 0,
        w.first_ids.len() == w.current,
    ensures
        writer_run(page, ids, settled(w)) == (if w.current < w.writes.len() {
            writes_in_chunks(
                appended_in_chunks(
                    page,
                    w.writes[w.current].blocks,
                    ids[w.current],
                    w.appender,
                ),
                w.writes,
                ids,
                w.current + 1,
            )
        } else {
            page
        }),
    decreases w.writes.len() - w.current, w.appender.total - w.appender.sent,
{
    lemma_settled(w);
    if w.current < w.writes.len() {
        if w.appender.sent >= w.appender.total {
            let next = advanced(w);
            lemma_writer_run(page, ids, next);
            assert(settled(w) == settled(next));
            assert(appended_in_chunks(
                page,
                w.writes[w.current].blocks,
                ids[w.current],
                w.appender,
            ) == page);
            assert(next.appender == write_appender(w.writes, w.current + 1));
            assert(writes_in_chunks(page, w.writes, ids, w.current + 1) == writer_run(
                page,
                ids,
                settled(w),
            ));
        } else {
            let a = w.appender;
            let to = chunk_end(a);
            let new_ids = ids[w.current].subrange(a.sent, to);
            let new = items(new_ids, w.writes[w.current].blocks.subrange(a.sent, to));
            let next = WriterView { appender: appender_next(a, new_ids), ..w };
            lemma_writer_run(appended(page, new, a.position), ids, next);
            assert(settled(w) == w);
            assert(writer_next(w, new_ids) == settled(next));
            assert(writer_run(page, ids, w) == writer_run(
                appended(page, new, a.position),
                ids,
                settled(next),
            ));
            assert(appended_in_chunks(page, w.writes[w.current].blocks, ids[w.current], a)
                == appended_in_chunks(
                appended(page, new, a.position),
                w.writes[w.current].blocks,
                ids[w.current],
                next.appender,
            ));
        }
    }
}

/// A writer does its writes one after another, each in its own chunks.
pub proof fn law_writer_writes_in_order(
    page: PageItems,
    writes: Seq<WriteView>,
    ids: Seq<Seq<Seq<char>>>,
)
    requires
        ids.len() == writes.len(),
    ensures
        writer_run(page, ids, writer_start(writes)) == writes_in_chunks(page, writes, ids, 0),
{
    let w = WriterView {
        writes,
        current: 0,
        appender: write_appender(writes, 0),
        first_ids: Seq::<Option<Seq<char>>>::empty(),
    };
    lemma_writer_run(page, ids, w);
}

/// A writer that has sent what it had left, where `ids[i]` are the IDs that
/// Notion gives the blocks of the `i`th write.
pub open spec fn writer_end(ids: Seq<Seq<Seq<char>>>, w: WriterView) -> WriterView
    decreases w.writes.len() - w.current, w.appender.total - w.appender.sent,
    via writer_end_decreases
{
    if !writer_valid(w) || w.current >= w.writes.len() {
        w
    } else {
        let new_ids = ids[w.current].subrange(w.appender.sent, chunk_end(w.appender));
        writer_end(ids, writer_next(w, new_ids))
    }
}

#[via_fn]
proof fn writer_end_decreases(ids: Seq<Seq<Seq<char>>>, w: WriterView) {
    if writer_valid(w) && w.current < w.writes.len() {
        let new_ids = ids[w.current].subrange(w.appender.sent, chunk_end(w.appender));
        lemma_settled(WriterView { appender: appender_next(w.appender, new_ids), ..w });
    }
}

proof fn lemma_writer_end(ids: Seq<Seq<Seq<char>>>, w: WriterView)
    requires
        ids.len() == w.writes.len(),
        forall|k: int|
            0 <= k < ids.len() ==> (#[trigger] ids[k]).len() == w.writes[k].blocks.len(),
        0 <= w.current <= w.writes.len(),
        w.current < w.writes.len() ==> {
            &&& w.appender.total == w.writes[w.current].blocks.len()
            &&& 0 <= w.appender.sent <= w.appender.total
            &&& w.appender.ids == ids[w.current].take(w.appender.sent)
        },
        w.first_ids == Seq::new(w.current as nat, |k: int| first_of(ids[k])),
    ensures
        writer_end(ids, settled(w)).first_ids == Seq::new(
            w.writes.len(),
            |k: int| first_of(ids[k]),
        ),
        writer_end(ids, settled(w)).current == w.writes.len(),
        writer_end(ids, settled(w)).writes == w.writes,
    decreases w.writes.len() - w.current, w.appender.total - w.appender.sent,
{
    lemma_settled(w);
    if w.current < w.writes.len() {
        let c = w.current;
        let a = w.appender;
        if a.sent >= a.total {
            let next = advanced(w);
            assert(ids[c].take(a.sent) =~= ids[c]);
            assert(next.first_ids =~= Seq::new((c + 1) as nat, |k: int| first_of(ids[k])));
            if c + 1 < w.writes.len() {
                assert(ids[c + 1].take(0) =~= Seq::<Seq<char>>::empty());
            }
            lemma_writer_end(ids, next);
            assert(settled(w) == settled(next));
        } else {
            let to = chunk_end(a);
            let new_ids = ids[c].subrange(a.sent, to);
            let next = WriterView { appender: appender_next(a, new_ids), ..w };
            assert(ids[c].take(a.sent) + new_ids =~= ids[c].take(to));
            lemma_writer_end(ids, next);
            assert(settled(w) == w);
            assert(writer_next(w, new_ids) == settled(next));
            assert(writer_end(ids, w) == writer_end(ids, settled(next)));
        }
    }
}

/// A writer that has sent everything is done, and has noted for each write the
/// ID of its first block.
pub proof fn law_first_ids(writes: Seq<WriteView>, ids: Seq<Seq<Seq<char>>>)
    requires
        ids.len() == writes.len(),
        forall|k: int| 0 <= k < ids.len() ==> (#[trigger] ids[k]).len() == writes[k].blocks.len(),
    ensures
        writer_end(ids, writer_start(writes)).first_ids == Seq::new(
            writes.len(),
            |k: int| first_of(ids[k]),
        ),
        writer_end(ids, writer_start(writes)).current == writes.len(),
        writer_end(ids, writer_start(writes)).writes == writes,
        writer_valid(writer_end(ids, writer_start(writes))),
{
    let w = WriterView {
        writes,
        current: 0,
        appender: write_appender(writes, 0),
        first_ids: Seq::<Option<Seq<char>>>::empty(),
    };
    assert(w.first_ids =~= Seq::new(0, |k: int| first_of(ids[k])));
    if writes.len() > 0 {
        assert(ids[0].take(0) =~= Seq::<Seq<char>>::empty());
    }
    lemma_writer_end(ids, w);
}

// ---------------------------------------------------------------------
// Laws of reading back
// ---------------------------------------------------------------------

/// The walk after several pages of results, each but the last with a cursor to
/// the next.
pub open spec fn fed(
    w: WalkView,
    pages: Seq<Seq<ChildBlockView>>,
    cursors: Seq<Seq<char>>,
) -> WalkView
    decreases pages.len(),
{
    if pages.len() == 0 {
        w
    } else if pages.len() == 1 {
        walk_next(w, pages[0], None)
    } else {
        fed(
            walk_next(w, pages[0], Some(cursors[0])),
            pages.drop_first(),
            cursors.drop_first(),
        )
    }
}

/// Pages of results one after another.
pub open spec fn all_pages(pages: Seq<Seq<ChildBlockView>>) -> Seq<ChildBlockView>
    decreases pages.len(),
{
    if pages.len() == 0 {
        Seq::<ChildBlockView>::empty()
    } else {
        pages.first() + all_pages(pages.drop_first())
    }
}

/// The walk once all the children that it asked for are there.
pub open spec fn with_children(w: WalkView, kids: Seq<ChildBlockView>) -> WalkView {
    passed(
        WalkView {
            out: w.out,
            stack: w.stack.push(kids),
            request: None,
            fetched: Seq::<ChildBlockView>::empty(),
        },
    )
}

/// Following the cursors gives all the children of a block, in order, and asks
/// for nothing else meanwhile.
pub proof fn law_cursors_are_followed(
    w: WalkView,
    pages: Seq<Seq<ChildBlockView>>,
    cursors: Seq<Seq<char>>,
)
    requires
        pages.len() > 0,
        cursors.len() == pages.len() - 1,
        w.request is Some,
    ensures
        fed(w, pages, cursors) == with_children(w, w.fetched + all_pages(pages)),
        pages.len() > 1 ==> walk_next(w, pages[0], Some(cursors[0])).request == Some(
            ListRequestView { block_id: (w.request->0).block_id, cursor: Some(cursors[0]) },
        ),
    decreases pages.len(),
{
    if pages.len() == 1 {
        assert(pages.drop_first() =~= Seq::<Seq<ChildBlockView>>::empty());
        assert(all_pages(pages.drop_first()) == Seq::<ChildBlockView>::empty());
        assert(all_pages(pages) =~= pages[0]);
    } else {
        let next = walk_next(w, pages[0], Some(cursors[0]));
        law_cursors_are_followed(next, pages.drop_first(), cursors.drop_first());
        assert(next.fetched + all_pages(pages.drop_first()) =~= w.fetched + all_pages(pages));
    }
}

/// What lies under siblings, depth first, down to `depth` levels below them;
/// `children` gives the children of each block.
pub open spec fn preorder(
    children: spec_fn(Seq<char>) -> Seq<ChildBlockView>,
    depth: nat,
    kids: Seq<ChildBlockView>,
) -> Seq<ChildBlockView>
    decreases depth, kids.len(),
{
    if kids.len() == 0 {
        Seq::<ChildBlockView>::empty()
    } else {
        let k = kids.first();
        let nested = if k.has_children && depth > 0 {
            preorder(children, (depth - 1) as nat, children(k.id))
        } else {
            Seq::<ChildBlockView>::empty()
        };
        seq![k] + nested + preorder(children, depth, kids.drop_first())
    }
}

/// Whether nothing lies deeper than `depth` levels below siblings.
pub open spec fn within_depth(
    children: spec_fn(Seq<char>) -> Seq<ChildBlockView>,
    depth: nat,
    kids: Seq<ChildBlockView>,
) -> bool
    decreases depth, kids.len(),
{
    kids.len() > 0 ==> {
        &&& kids.first().has_children ==> depth > 0 && within_depth(
            children,
            (depth - 1) as nat,
            children(kids.first().id),
        )
        &&& within_depth(children, depth, kids.drop_first())
    }
}

/// The walk after `n` requests at most, each answered with all the children.
pub open spec fn walked(
    children: spec_fn(Seq<char>) -> Seq<ChildBlockView>,
    w: WalkView,
    n: nat,
) -> WalkView
    decreases n,
{
    match w.request {
        None => w,
        Some(r) => if n == 0 {
            w
        } else {
            walked(children, with_children(w, children(r.block_id)), (n - 1) as nat)
        },
    }
}

/// What lies under the levels of a stack, the last level first. The level at
/// position `j` may have `depth - j` levels below it.
spec fn under_stack(
    children: spec_fn(Seq<char>) -> Seq<ChildBlockView>,
    depth: nat,
    stack: Seq<Seq<ChildBlockView>>,
) -> Seq<ChildBlockView>
    decreases stack.len(),
{
    if stack.len() == 0 {
        Seq::<ChildBlockView>::empty()
    } else {
        preorder(children, (depth - (stack.len() - 1)) as nat, stack.last()) + under_stack(
            children,
            depth,
            stack.drop_last(),
        )
    }
}

spec fn stack_within(
    children: spec_fn(Seq<char>) -> Seq<ChildBlockView>,
    depth: nat,
    stack: Seq<Seq<ChildBlockView>>,
) -> bool {
    &&& stack.len() <= depth + 1
    &&& forall|j: int|
        0 <= j < stack.len() ==> within_depth(
            children,
            (depth - j) as nat,
            #[trigger] stack[j],
        )
}

/// The number of blocks that have children.
pub open spec fn parents_in(blocks: Seq<ChildBlockView>) -> nat
    decreases blocks.len(),
{
    if blocks.len() == 0 {
        0
    } else {
        parents_in(blocks.drop_first()) + (if blocks.first().has_children {
            1nat
        } else {
            0nat
        })
    }
}

proof fn lemma_parents_concat(a: Seq<ChildBlockView>, b: Seq<ChildBlockView>)
    ensures
        parents_in(a + b) == parents_in(a) + parents_in(b),
    decreases a.len(),
{
    if a.len() == 0 {
        assert(a + b =~= b);
    } else {
        assert((a + b).drop_first() =~= a.drop_first() + b);
        assert((a + b).first() == a.first());
        lemma_parents_concat(a.drop_first(), b);
    }
}

/// What is still to come of a walk.
spec fn to_come(
    children: spec_fn(Seq<char>) -> Seq<ChildBlockView>,
    depth: nat,
    w: WalkView,
) -> Seq<ChildBlockView> {
    match w.request {
        Some(r) => preorder(children, (depth - w.stack.len()) as nat, children(r.block_id))
            + under_stack(children, depth, w.stack),
        None => under_stack(children, depth, w.stack),
    }
}

/// Whether what is still to come of a walk has a bounded depth.
spec fn walk_within(
    children: spec_fn(Seq<char>) -> Seq<ChildBlockView>,
    depth: nat,
    w: WalkView,
) -> bool {
    &&& stack_within(children, depth, w.stack)
    &&& w.request matches Some(r) ==> w.stack.len() <= depth && within_depth(
        children,
        (depth - w.stack.len()) as nat,
        children(r.block_id),
    )
}

proof fn lemma_passed(
    children: spec_fn(Seq<char>) -> Seq<ChildBlockView>,
    depth: nat,
    w: WalkView,
)
    requires
        w.request is None,
        stack_within(children, depth, w.stack),
    ensures
        ({
            let p = passed(w);
            &&& walk_within(children, depth, p)
            &&& p.out + to_come(children, depth, p) == w.out + under_stack(
                children,
                depth,
                w.stack,
            )
            &&& p.request is None ==> p.stack.len() == 0
            &&& p.request is Some ==> parents_in(to_come(children, depth, p)) < parents_in(
                under_stack(children, depth, w.stack),
            )
        }),
    decreases stack_size(w.stack),
{
    if w.stack.len() > 0 {
        let top = w.stack.last();
        let below = w.stack.drop_last();
        let d = (depth - (w.stack.len() - 1)) as nat;
        lemma_stack_size(below);
        assert(stack_within(children, depth, below)) by {
            assert forall|j: int| 0 <= j < below.len() implies within_depth(
                children,
                (depth - j) as nat,
                #[trigger] below[j],
            ) by {
                assert(below[j] == w.stack[j]);
            }
        }
        assert(w.stack[w.stack.len() - 1] == top);
        assert(within_depth(children, d, top));
        let rest_below = under_stack(children, depth, below);
        if top.len() == 0 {
            let next = WalkView { stack: below, ..w };
            lemma_passed(children, depth, next);
            assert(under_stack(children, depth, w.stack) =~= rest_below);
        } else {
            let child = top.first();
            let tail = top.drop_first();
            let stack = below.push(tail);
            let rest = WalkView { out: w.out.push(child), stack, ..w };
            assert(stack.drop_last() =~= below);
            assert(stack.last() == tail);
            assert(stack_within(children, depth, stack)) by {
                assert forall|j: int| 0 <= j < stack.len() implies within_depth(
                    children,
                    (depth - j) as nat,
                    #[trigger] stack[j],
                ) by {
                    if j < below.len() {
                        assert(below[j] == stack[j]);
                    }
                }
            }
            let after = preorder(children, d, tail);
            assert(under_stack(children, depth, stack) == after + rest_below);
            if child.has_children {
                let nested = preorder(children, (d - 1) as nat, children(child.id));
                let p = passed(w);
                assert(p.stack == stack);
                assert((depth - stack.len()) as nat == (d - 1) as nat);
                assert(to_come(children, depth, p) == nested + (after + rest_below));
                assert(under_stack(children, depth, w.stack) =~= seq![child] + (nested + (after
                    + rest_below)));
                assert(p.out + to_come(children, depth, p) =~= w.out + under_stack(
                    children,
                    depth,
                    w.stack,
                ));
                lemma_parents_concat(seq![child], nested + (after + rest_below));
                assert(seq![child].drop_first() =~= Seq::<ChildBlockView>::empty());
                assert(parents_in(seq![child].drop_first()) == 0);
                assert(parents_in(seq![child]) == 1);
            } else {
                assert(stack_size(stack) < stack_size(w.stack));
                lemma_passed(children, depth, rest);
                assert(under_stack(children, depth, w.stack) =~= seq![child] + (after
                    + rest_below));
                assert(w.out + under_stack(children, depth, w.stack) =~= rest.out + under_stack(
                    children,
                    depth,
                    stack,
                ));
                lemma_parents_concat(seq![child], after + rest_below);
            }
        }
    }
}

proof fn lemma_walked(
    children: spec_fn(Seq<char>) -> Seq<ChildBlockView>,
    depth: nat,
    w: WalkView,
    n: nat,
)
    requires
        walk_within(children, depth, w),
        w.request is None ==> w.stack.len() == 0,
        w.request is Some ==> parents_in(to_come(children, depth, w)) < n,
    ensures
        walked(children, w, n).request is None,
        walked(children, w, n).out == w.out + to_come(children, depth, w),
    decreases n,
{
    match w.request {
        None => {
            assert(w.out + to_come(children, depth, w) =~= w.out);
        },
        Some(r) => {
            let kids = children(r.block_id);
            let full = WalkView {
                out: w.out,
                stack: w.stack.push(kids),
                request: None,
                fetched: Seq::<ChildBlockView>::empty(),
            };
            assert(full.stack.drop_last() =~= w.stack);
            assert(stack_within(children, depth, full.stack)) by {
                assert forall|j: int| 0 <= j < full.stack.len() implies within_depth(
                    children,
                    (depth - j) as nat,
                    #[trigger] full.stack[j],
                ) by {
                    if j < w.stack.len() {
                        assert(full.stack[j] == w.stack[j]);
                    }
                }
            }
            assert(under_stack(children, depth, full.stack) == to_come(children, depth, w));
            lemma_passed(children, depth, full);
            let p = passed(full);
            lemma_walked(children, depth, p, (n - 1) as nat);
        },
    }
}

/// A walk ends, and gives everything nested under its block, depth first: a
/// block's children come right behind it, before its next sibling.
pub proof fn law_walk_is_depth_first(
    children: spec_fn(Seq<char>) -> Seq<ChildBlockView>,
    depth: nat,
    block_id: Seq<char>,
)
    requires
        within_depth(children, depth, children(block_id)),
    ensures
        ({
            let all = preorder(children, depth, children(block_id));
            let end = walked(children, walk_start(block_id), parents_in(all) + 1);
            end.request is None && end.out == all
        }),
{
    let w = walk_start(block_id);
    let all = preorder(children, depth, children(block_id));
    assert(under_stack(children, depth, w.stack) == Seq::<ChildBlockView>::empty());
    assert(to_come(children, depth, w) =~= all);
    lemma_walked(children, depth, w, parents_in(all) + 1);
    assert(w.out + to_come(children, depth, w) =~= all);
}

} // verus!
