//! Whole runs against a vault and a Notion workspace held in memory.

use orgnotion::blocks::{Block, Color, Mention, RichText};
use orgnotion::notion::{ChildrenWalk, PageJob, PageWriter, MAX_CHILDREN_PER_REQUEST};
use orgnotion::path::VaultPath;
use orgnotion::ports::{
    AppendPosition, ChildBlock, ChildrenPage, CreatedPage, FileSystem, FsError, NotionError,
};
use orgnotion::publish::{Action, PageOutcome, PageReply, Publication, Stage};
use orgnotion::run::{
    require_token, scanning_line, start, summary, RunConfig, RunError, RunReport, Start,
    PARENT_PAGE_ID_ENV_VAR, TOKEN_ENV_VAR,
};
use orgnotion::validate::collect_links;
use orgnotion::vault::scan;
use std::cell::RefCell;
use std::collections::{BTreeMap, HashMap};

const VAULT: &str = "/vault";
const NOW: &str = "2026-07-12T14:03:00Z";

// ---------------------------------------------------------------------
// A vault in memory
// ---------------------------------------------------------------------

struct InMemoryFileSystem {
    files: BTreeMap<String, String>,
}

impl InMemoryFileSystem {
    fn with_files(files: &[(&str, &str)]) -> Self {
        Self {
            files: files
                .iter()
                .map(|(p, c)| ((*p).to_string(), (*c).to_string()))
                .collect(),
        }
    }
}

impl FileSystem for InMemoryFileSystem {
    fn list_org_files(&self, dir: &VaultPath) -> Result<Vec<VaultPath>, FsError> {
        Ok(self
            .files
            .keys()
            .rev()
            .filter(|p| p.starts_with(&dir.to_text()) && p.ends_with(".org"))
            .map(|p| VaultPath::parse(p))
            .collect())
    }

    fn read_to_string(&self, path: &VaultPath) -> Result<String, FsError> {
        self.files
            .get(&path.to_text())
            .cloned()
            .ok_or_else(|| FsError::Io {
                path: path.clone(),
                message: "no such file".to_string(),
            })
    }

    fn file_exists(&self, path: &VaultPath) -> bool {
        self.files.contains_key(&path.to_text())
    }
}

// ---------------------------------------------------------------------
// A workspace in memory
// ---------------------------------------------------------------------

#[derive(Debug, Clone, PartialEq, Eq)]
struct PageRecord {
    id: String,
    parent_id: String,
    title: String,
}

#[derive(Default)]
struct FakeNotion {
    state: RefCell<FakeNotionState>,
    /// How many blocks a page of results holds.
    list_page_size: usize,
    /// When set, no page is created once there are this many.
    fail_create_after: Option<usize>,
    /// When set, nothing can be appended.
    fail_append_status: Option<u16>,
    /// When set, no block can be listed.
    fail_list: bool,
    /// Whether everything that was appended vanishes.
    serve_empty_children: bool,
}

#[derive(Default)]
struct FakeNotionState {
    pages: Vec<PageRecord>,
    children: HashMap<String, Vec<(String, Block)>>,
    append_calls: Vec<(String, usize)>,
    list_calls: Vec<(String, Option<String>)>,
}

impl FakeNotion {
    fn new() -> Self {
        Self {
            list_page_size: 100,
            ..Self::default()
        }
    }

    fn pages(&self) -> Vec<PageRecord> {
        self.state.borrow().pages.clone()
    }

    fn children_of(&self, block_id: &str) -> Vec<Block> {
        let state = self.state.borrow();
        match state.children.get(block_id) {
            Some(c) => c.iter().map(|(_, b)| b.clone()).collect(),
            None => vec![],
        }
    }

    fn append_calls(&self) -> Vec<(String, usize)> {
        self.state.borrow().append_calls.clone()
    }

    fn list_calls(&self) -> Vec<(String, Option<String>)> {
        self.state.borrow().list_calls.clone()
    }

    fn create_page(&self, parent_id: &str, title: &str) -> Result<CreatedPage, NotionError> {
        let mut state = self.state.borrow_mut();
        if self.fail_create_after.is_some_and(|n| state.pages.len() >= n) {
            return Err(NotionError::Api {
                status: 500,
                body: "fake: create_page failure injected".to_string(),
            });
        }
        let id = format!("page-{}", state.pages.len());
        state.pages.push(PageRecord {
            id: id.clone(),
            parent_id: parent_id.to_string(),
            title: title.to_string(),
        });
        Ok(CreatedPage {
            url: format!("https://www.notion.so/{id}"),
            id,
        })
    }

    fn append_children(
        &self,
        block_id: &str,
        blocks: &[Block],
        position: &AppendPosition,
    ) -> Result<Vec<String>, NotionError> {
        if let Some(status) = self.fail_append_status {
            return Err(NotionError::Api {
                status,
                body: "fake: append failure injected".to_string(),
            });
        }
        let mut state = self.state.borrow_mut();
        state
            .append_calls
            .push((block_id.to_string(), blocks.len()));
        let children = state.children.entry(block_id.to_string()).or_default();
        let first = children.len();
        let ids: Vec<String> = (0..blocks.len())
            .map(|i| format!("{block_id}-child-{}", first + i))
            .collect();
        let at = match position {
            AppendPosition::End => children.len(),
            AppendPosition::After { after_id } => {
                1 + children
                    .iter()
                    .position(|(id, _)| id == after_id)
                    .expect("the block is there")
            }
        };
        for (i, block) in blocks.iter().enumerate() {
            children.insert(at + i, (ids[i].clone(), block.clone()));
        }
        Ok(ids)
    }

    fn list_children(
        &self,
        block_id: &str,
        cursor: Option<&str>,
    ) -> Result<ChildrenPage, NotionError> {
        if self.fail_list {
            return Err(NotionError::Transport("fake: list failure".to_string()));
        }
        let mut state = self.state.borrow_mut();
        state
            .list_calls
            .push((block_id.to_string(), cursor.map(ToString::to_string)));
        if self.serve_empty_children {
            return Ok(ChildrenPage {
                blocks: vec![],
                next_cursor: None,
            });
        }
        let all = state.children.get(block_id).cloned().unwrap_or_default();
        let from: usize = cursor.map_or(0, |c| c.parse().expect("cursors are offsets"));
        let to = (from + self.list_page_size).min(all.len());
        let next_cursor = if to < all.len() {
            Some(to.to_string())
        } else {
            None
        };
        let blocks = all[from..to]
            .iter()
            .map(|(id, block)| ChildBlock {
                id: id.clone(),
                has_children: state.children.contains_key(id),
                block: block.clone(),
            })
            .collect();
        Ok(ChildrenPage {
            blocks,
            next_cursor,
        })
    }
}

// ---------------------------------------------------------------------
// A run
// ---------------------------------------------------------------------

fn write_page(notion: &FakeNotion, job: PageJob) -> PageOutcome {
    let mut writer = PageWriter::new(job);
    while let Some(request) = writer.next() {
        let blocks = &writer.job.writes[request.write].blocks;
        let chunk = &blocks[request.chunk.from..request.chunk.to];
        match notion.append_children(&writer.job.page_id, chunk, &request.chunk.position) {
            Ok(ids) => writer.accept(ids),
            Err(e) => {
                return PageOutcome {
                    writer,
                    error: Some(e),
                }
            }
        }
    }
    PageOutcome {
        writer,
        error: None,
    }
}

fn read_page(notion: &FakeNotion, page_id: &str) -> PageReply {
    let mut walk = ChildrenWalk::new(page_id);
    while let Some(q) = walk.next() {
        match notion.list_children(&q.block_id, q.cursor.as_deref()) {
            Ok(page) => walk.accept(page),
            Err(e) => return PageReply::Failed(e),
        }
    }
    PageReply::Found(collect_links(&walk.out))
}

fn execute(
    cfg: &RunConfig,
    fs: &InMemoryFileSystem,
    notion: &FakeNotion,
    env_parent: Option<&str>,
    lines: &mut Vec<String>,
) -> Result<RunReport, RunError> {
    lines.push(scanning_line(VAULT));
    let vault = scan(fs, &cfg.vault_dir).map_err(RunError::Vault)?;
    let started = start(cfg, &vault, env_parent.map(String::from), NOW);
    lines.extend(started.lines);
    let (parent, title) = match started.outcome? {
        Start::Done(report) => return Ok(report),
        Start::Publish {
            parent_page_id,
            title,
            ..
        } => (parent_page_id, title),
    };
    let (mut publication, mut step) =
        Publication::begin(vault, cfg.vault_dir.clone(), parent, &title);
    loop {
        lines.extend(step.lines);
        step = match step.action {
            Action::Create(q) => publication.created(notion.create_page(&q.parent_id, &q.title)),
            Action::Write(jobs) => {
                let outcomes = jobs.into_iter().map(|job| write_page(notion, job)).collect();
                publication.written(outcomes)
            }
            Action::Read(ids) => {
                let replies = ids.iter().map(|id| read_page(notion, id)).collect();
                publication.read(replies)
            }
            Action::Finish(report) => {
                lines.extend(summary(&report, "1.0"));
                return Ok(report);
            }
            Action::Fail(e) => return Err(e),
        };
    }
}

fn run_with(
    cfg: &RunConfig,
    fs: &InMemoryFileSystem,
    notion: &FakeNotion,
) -> Result<RunReport, RunError> {
    execute(cfg, fs, notion, None, &mut vec![])
}

fn org(id: &str, title: &str, body: &str) -> String {
    format!(":PROPERTIES:\n:ID: {id}\n:END:\n#+TITLE: {title}\n\n{body}\n")
}

fn config() -> RunConfig {
    RunConfig {
        vault_dir: VaultPath::parse(VAULT),
        parent_page_id: Some("parent-page".to_string()),
        title: None,
        dry_run: false,
        concurrency: 4,
    }
}

fn two_node_vault() -> InMemoryFileSystem {
    InMemoryFileSystem::with_files(&[
        (
            "/vault/a.org",
            &org("a", "Node A", "Links to [[id:b][Node B]]."),
        ),
        ("/vault/b.org", &org("b", "Node B", "Plain text only.")),
    ])
}

fn kind_of(block: &Block) -> &'static str {
    match block {
        Block::Paragraph { .. } => "paragraph",
        Block::Heading1 { .. } => "heading_1",
        Block::Heading2 { .. } => "heading_2",
        Block::Callout { .. } => "callout",
        other => panic!("unexpected block {other:?}"),
    }
}

/// The kind and the plain text of every block on a page.
fn page_texts(notion: &FakeNotion, page_id: &str) -> Vec<(String, String)> {
    notion
        .children_of(page_id)
        .iter()
        .map(|b| {
            let runs = orgnotion::converter::rich_text_of(b).unwrap_or_default();
            let text: String = runs
                .iter()
                .filter_map(|r| match r {
                    RichText::Text { content, .. } => Some(content.as_str()),
                    _ => None,
                })
                .collect();
            (kind_of(b).to_string(), text)
        })
        .collect()
}

/// The pages that the paragraphs of a page mention.
fn mentions_on(notion: &FakeNotion, page_id: &str) -> Vec<String> {
    let mut out = vec![];
    for block in notion.children_of(page_id) {
        if let Block::Paragraph { rich_text } = block {
            for run in rich_text {
                if let RichText::Mention {
                    mention: Mention::Page { id },
                    ..
                } = run
                {
                    out.push(id);
                }
            }
        }
    }
    out
}

#[test]
fn happy_path_creates_root_then_pages_then_content() {
    let notion = FakeNotion::new();
    let report = run_with(&config(), &two_node_vault(), &notion).unwrap();

    assert_eq!(report.node_count, 2);
    assert!(report.block_count >= 2);
    assert_eq!(
        report.root_url.as_deref(),
        Some("https://www.notion.so/page-0")
    );

    let pages = notion.pages();
    assert_eq!(pages.len(), 3); // root + 2 nodes
    assert_eq!(pages[0].parent_id, "parent-page");
    assert!(pages[1..].iter().all(|p| p.parent_id == pages[0].id));
    let titles: Vec<_> = pages[1..].iter().map(|p| p.title.as_str()).collect();
    assert_eq!(titles, vec!["Node A", "Node B"]);
}

#[test]
fn nested_vault_mirrors_directory_tree() {
    let notion = FakeNotion::new();
    let fs = InMemoryFileSystem::with_files(&[
        ("/vault/hub.org", &org("hub", "Hub", "Root-level node.")),
        (
            "/vault/backend/autopilot/a.org",
            &org("a", "Autopilot A", "Body."),
        ),
        (
            "/vault/backend/indexer/b.org",
            &org("b", "Indexer B", "Body."),
        ),
    ]);
    let report = run_with(&config(), &fs, &notion).unwrap();
    assert_eq!(report.node_count, 3);

    let pages = notion.pages();
    assert_eq!(pages.len(), 7); // root + 3 directories + 3 nodes
    let root = &pages[0];
    let find = |title: &str| {
        pages
            .iter()
            .find(|p| p.title == title)
            .unwrap_or_else(|| panic!("no page titled {title:?}"))
    };

    let backend = find("backend");
    let autopilot = find("autopilot");
    let indexer = find("indexer");
    assert_eq!(backend.parent_id, root.id);
    assert_eq!(autopilot.parent_id, backend.id);
    assert_eq!(indexer.parent_id, backend.id);

    assert_eq!(find("Hub").parent_id, root.id);
    assert_eq!(find("Autopilot A").parent_id, autopilot.id);
    assert_eq!(find("Indexer B").parent_id, indexer.id);
}

#[test]
fn sibling_pages_are_created_in_sorted_order_even_when_requests_lag() {
    // The next page is asked for only when the one before has been taken,
    // however long that was.
    let notion = FakeNotion::new();
    let fs = InMemoryFileSystem::with_files(&[
        ("/vault/1.org", &org("n1", "1 One", "Body.")),
        ("/vault/2.org", &org("n2", "2 Two", "Body.")),
        ("/vault/3.org", &org("n3", "3 Three", "Body.")),
        ("/vault/4.org", &org("n4", "4 Four", "Body.")),
    ]);
    run_with(&config(), &fs, &notion).unwrap();

    let titles: Vec<_> = notion.pages()[1..]
        .iter()
        .map(|p| p.title.clone())
        .collect();
    assert_eq!(titles, vec!["1 One", "2 Two", "3 Three", "4 Four"]);
}

#[test]
fn unreviewed_node_gets_warning_callout_as_first_block() {
    let notion = FakeNotion::new();
    let fs = InMemoryFileSystem::with_files(&[
        (
            "/vault/a.org",
            ":PROPERTIES:\n:ID: a\n:END:\n#+TITLE: Node A\n#+filetags: :unreviewed:\n\n* First heading\n\nBody.\n",
        ),
        ("/vault/b.org", &org("b", "Node B", "* Heading B\n\nFine.")),
    ]);
    run_with(&config(), &fs, &notion).unwrap();

    let pages = notion.pages();
    let page_of = |title: &str| {
        pages
            .iter()
            .find(|p| p.title == title)
            .unwrap_or_else(|| panic!("no page titled {title}"))
            .id
            .clone()
    };

    let children = notion.children_of(&page_of("Node A"));
    match &children[0] {
        Block::Callout { rich_text, icon } => {
            match &rich_text[0] {
                RichText::Text {
                    content,
                    annotations,
                    ..
                } => {
                    assert_eq!(
                        content,
                        "This content hasn't been reviewed yet, proceed with caution"
                    );
                    assert_eq!(annotations.color, Color::Red);
                }
                other => panic!("expected text, got {other:?}"),
            }
            assert_eq!(icon.as_deref(), Some("⚠️"));
        }
        other => panic!("expected a callout, got {other:?}"),
    }
    assert_eq!(kind_of(&children[1]), "heading_1");

    // The untagged node is untouched: normal heading color, no callout.
    let kinds_b = page_texts(&notion, &page_of("Node B"));
    assert!(kinds_b.iter().all(|(kind, _)| kind != "callout"));
}

#[test]
fn flat_index_dir_merges_files_onto_the_index_page() {
    let notion = FakeNotion::new();
    let fs = InMemoryFileSystem::with_files(&[
        // Declared out of name order; concatenation must sort by file
        // name — except the index node, which always leads even though
        // "z-index.org" sorts last.
        ("/vault/merged/b.org", &org("b", "Title B", "Content of B.")),
        (
            "/vault/merged/a.org",
            &org("a", "Title A", "Content of A. See [[id:b][B]]."),
        ),
        (
            "/vault/merged/z-index.org",
            &org("i", "Merged Index", "Index intro."),
        ),
        ("/vault/merged/.INDEX", "z-index.org\nflat = true\n"),
        (
            "/vault/outside.org",
            &org("out", "Outside", "Points into [[id:a][A]]."),
        ),
    ]);
    let report = run_with(&config(), &fs, &notion).unwrap();
    assert_eq!(report.node_count, 4);

    // Root + the merged directory page + the one regular node page. The
    // directory page takes the index node's title, not the dir basename.
    let pages = notion.pages();
    assert_eq!(pages.len(), 3);
    let root = &pages[0];
    let merged = pages.iter().find(|p| p.title == "Merged Index").unwrap();
    let outside = pages.iter().find(|p| p.title == "Outside").unwrap();
    assert_eq!(merged.parent_id, root.id);
    assert!(!pages.iter().any(|p| p.title == "merged"));
    assert!(!pages.iter().any(|p| p.title == "Title A"));

    // Index content first with no title heading (the page name carries
    // its title), then title heading + body per file in file-name order.
    let texts = page_texts(&notion, &merged.id);
    let kinds: Vec<&str> = texts.iter().map(|(k, _)| k.as_str()).collect();
    assert_eq!(
        kinds,
        vec![
            "paragraph",
            "heading_1",
            "paragraph",
            "heading_1",
            "paragraph"
        ]
    );
    assert_eq!(texts[0].1, "Index intro.");
    assert_eq!(texts[1].1, "Title A");
    assert!(texts[2].1.starts_with("Content of A."), "got: {texts:?}");
    assert_eq!(texts[3].1, "Title B");
    assert_eq!(texts[4].1, "Content of B.");

    // A link into the merged dir mentions the merged page.
    let mentions = mentions_on(&notion, &outside.id);
    assert_eq!(mentions.len(), 1);
    assert_eq!(mentions[0], merged.id);

    // Post-validation fetched the merged page once, not once per node.
    let merged_lists = notion
        .list_calls()
        .iter()
        .filter(|(id, _)| id == &merged.id)
        .count();
    assert_eq!(merged_lists, 1);

    // The headings that introduce the merged nodes are not counted.
    assert_eq!(report.block_count, 4);
}

#[test]
fn non_flat_index_renders_on_the_directory_page_with_child_pages() {
    let notion = FakeNotion::new();
    let fs = InMemoryFileSystem::with_files(&[
        ("/vault/sub/index.org", &org("i", "Sub Index", "Overview.")),
        ("/vault/sub/a.org", &org("a", "Title A", "Content of A.")),
        ("/vault/sub/.INDEX", "index.org\nflat = false\n"),
    ]);
    let report = run_with(&config(), &fs, &notion).unwrap();
    assert_eq!(report.node_count, 2);

    // Root + the directory page (titled by the index node) + one child
    // page for the non-index node. The index node has no page of its own.
    let pages = notion.pages();
    assert_eq!(pages.len(), 3);
    let dir_page = pages.iter().find(|p| p.title == "Sub Index").unwrap();
    let child = pages.iter().find(|p| p.title == "Title A").unwrap();
    assert_eq!(dir_page.parent_id, pages[0].id);
    assert_eq!(child.parent_id, dir_page.id);

    // The index content sits on the directory page, without a heading.
    let texts = page_texts(&notion, &dir_page.id);
    assert_eq!(
        texts,
        vec![("paragraph".to_string(), "Overview.".to_string())]
    );
    let child_texts = page_texts(&notion, &child.id);
    assert_eq!(
        child_texts,
        vec![("paragraph".to_string(), "Content of A.".to_string())]
    );
}

#[test]
fn index_marker_at_vault_root_appends_to_the_snapshot_root_page() {
    let notion = FakeNotion::new();
    let fs = InMemoryFileSystem::with_files(&[
        ("/vault/a.org", &org("a", "Title A", "Content of A.")),
        ("/vault/b.org", &org("b", "Title B", "Content of B.")),
        ("/vault/.INDEX", "a.org\nflat = true\n"),
    ]);
    run_with(&config(), &fs, &notion).unwrap();

    let pages = notion.pages();
    assert_eq!(pages.len(), 1); // only the snapshot root
    let texts = page_texts(&notion, &pages[0].id);
    // The index node (a.org) leads without a heading; b.org follows
    // introduced by its title.
    let kinds: Vec<&str> = texts.iter().map(|(k, _)| k.as_str()).collect();
    assert_eq!(kinds, vec!["paragraph", "heading_1", "paragraph"]);
    assert_eq!(texts[0].1, "Content of A.");
    assert_eq!(texts[1].1, "Title B");
    assert_eq!(texts[2].1, "Content of B.");
}

#[test]
fn dry_run_marks_flat_index_directories() {
    let notion = FakeNotion::new();
    let fs = InMemoryFileSystem::with_files(&[
        ("/vault/merged/a.org", &org("a", "Title A", "Body.")),
        ("/vault/merged/index.org", &org("i", "Merged Index", "Body.")),
        ("/vault/merged/.INDEX", "index.org\nflat = true\n"),
        ("/vault/normal/b.org", &org("b", "Title B", "Body.")),
    ]);
    let cfg = RunConfig {
        dry_run: true,
        ..config()
    };
    let mut lines = vec![];
    execute(&cfg, &fs, &notion, None, &mut lines).unwrap();

    let output = lines.join("\n");
    // The indexed directory shows under its index node's title.
    assert!(output.contains("  - Merged Index/ (flat)"), "got: {output}");
    assert!(output.contains("  - normal/\n"), "got: {output}");
}

#[test]
fn dry_run_shows_planned_directory_tree() {
    let notion = FakeNotion::new();
    let fs = InMemoryFileSystem::with_files(&[
        ("/vault/hub.org", &org("hub", "Hub", "Root-level node.")),
        (
            "/vault/backend/autopilot/a.org",
            &org("a", "Autopilot A", "Body."),
        ),
    ]);
    let cfg = RunConfig {
        dry_run: true,
        ..config()
    };
    let mut lines = vec![];
    execute(&cfg, &fs, &notion, None, &mut lines).unwrap();

    let output = lines.join("\n");
    assert!(output.contains("  - backend/"), "got: {output}");
    assert!(output.contains("    - autopilot/"), "got: {output}");
    assert!(output.contains("      - Autopilot A"), "got: {output}");
    assert!(output.contains("  - Hub"), "got: {output}");
    assert!(notion.pages().is_empty());
}

#[test]
fn links_are_written_as_mentions_of_the_right_page() {
    let notion = FakeNotion::new();
    run_with(&config(), &two_node_vault(), &notion).unwrap();

    let pages = notion.pages();
    let page_a = &pages[1]; // sorted: a.org first
    let page_b = &pages[2];
    let mentions = mentions_on(&notion, &page_a.id);
    assert_eq!(mentions.len(), 1);
    assert_eq!(mentions[0], page_b.id);
}

#[test]
fn default_title_uses_injected_clock() {
    let notion = FakeNotion::new();
    run_with(&config(), &two_node_vault(), &notion).unwrap();
    assert_eq!(
        notion.pages()[0].title,
        "Org-roam snapshot 2026-07-12T14:03:00Z"
    );
}

#[test]
fn explicit_title_wins_over_default() {
    let notion = FakeNotion::new();
    let cfg = RunConfig {
        title: Some("My Snapshot".to_string()),
        ..config()
    };
    run_with(&cfg, &two_node_vault(), &notion).unwrap();
    assert_eq!(notion.pages()[0].title, "My Snapshot");
}

#[test]
fn parent_page_id_falls_back_to_env_var() {
    let notion = FakeNotion::new();
    let cfg = RunConfig {
        parent_page_id: None,
        ..config()
    };
    let env = HashMap::from([(PARENT_PAGE_ID_ENV_VAR, "env-parent")]);
    let report = execute(
        &cfg,
        &two_node_vault(),
        &notion,
        env.get(PARENT_PAGE_ID_ENV_VAR).copied(),
        &mut vec![],
    );
    assert!(report.is_ok());
    assert_eq!(notion.pages()[0].parent_id, "env-parent");
}

#[test]
fn missing_parent_page_id_fails_before_any_write() {
    let notion = FakeNotion::new();
    let cfg = RunConfig {
        parent_page_id: None,
        ..config()
    };
    let err = run_with(&cfg, &two_node_vault(), &notion).unwrap_err();
    assert!(matches!(err, RunError::MissingParentPageId));
    assert!(notion.pages().is_empty());
}

#[test]
fn broken_link_aborts_before_any_notion_call() {
    let notion = FakeNotion::new();
    let fs = InMemoryFileSystem::with_files(&[(
        "/vault/a.org",
        &org("a", "Node A", "Links to [[id:ghost]]."),
    )]);
    let err = run_with(&config(), &fs, &notion).unwrap_err();
    match err {
        RunError::PreValidation(broken) => {
            assert_eq!(broken.len(), 1);
            assert_eq!(broken[0].target_id, "ghost");
        }
        other => panic!("expected PreValidation, got {other:?}"),
    }
    assert!(notion.pages().is_empty());
    assert!(notion.append_calls().is_empty());
}

#[test]
fn dry_run_validates_and_writes_nothing() {
    let notion = FakeNotion::new();
    let cfg = RunConfig {
        dry_run: true,
        ..config()
    };
    let mut lines = vec![];
    let report = execute(&cfg, &two_node_vault(), &notion, None, &mut lines).unwrap();

    assert_eq!(report.node_count, 2);
    assert!(report.root_url.is_none());
    assert!(notion.pages().is_empty());
    assert!(notion.append_calls().is_empty());
    let output = lines.join("\n");
    assert!(
        output.contains("Node A"),
        "planned structure listed: {output}"
    );
    assert!(output.contains("Nothing was written to Notion."));
}

#[test]
fn dry_run_still_fails_on_broken_links() {
    let notion = FakeNotion::new();
    let fs = InMemoryFileSystem::with_files(&[("/vault/a.org", &org("a", "A", "[[id:ghost]]"))]);
    let cfg = RunConfig {
        dry_run: true,
        ..config()
    };
    assert!(matches!(
        run_with(&cfg, &fs, &notion),
        Err(RunError::PreValidation(_))
    ));
}

#[test]
fn large_documents_are_chunked_at_one_hundred_blocks() {
    let notion = FakeNotion::new();
    let many_paragraphs = (0..250)
        .map(|i| format!("Paragraph number {i}."))
        .collect::<Vec<_>>()
        .join("\n\n");
    let fs = InMemoryFileSystem::with_files(&[(
        "/vault/big.org",
        &org("big", "Big Node", &many_paragraphs),
    )]);
    let report = run_with(&config(), &fs, &notion).unwrap();

    assert_eq!(report.block_count, 250);
    let chunks: Vec<usize> = notion.append_calls().iter().map(|(_, n)| *n).collect();
    assert_eq!(chunks, vec![100, 100, 50]);
    assert!(chunks.iter().all(|&n| n <= MAX_CHILDREN_PER_REQUEST));
}

#[test]
fn mid_run_create_failure_reports_partial_snapshot_with_root_url() {
    let mut notion = FakeNotion::new();
    notion.fail_create_after = Some(2); // root + first node page succeed
    let err = run_with(&config(), &two_node_vault(), &notion).unwrap_err();
    match err {
        RunError::Api {
            root_url, context, ..
        } => {
            assert_eq!(root_url.as_deref(), Some("https://www.notion.so/page-0"));
            assert_eq!(context, "failed to create the page for node \"Node B\"");
        }
        other => panic!("expected Api error, got {other:?}"),
    }
}

#[test]
fn append_failure_reports_partial_snapshot() {
    let mut notion = FakeNotion::new();
    notion.fail_append_status = Some(500);
    let err = run_with(&config(), &two_node_vault(), &notion).unwrap_err();
    match err {
        RunError::Api {
            root_url, source, ..
        } => {
            assert!(root_url.is_some());
            assert!(source.message().contains("500"));
        }
        other => panic!("expected Api error, got {other:?}"),
    }
}

#[test]
fn post_validation_failure_flags_snapshot_invalid() {
    let mut notion = FakeNotion::new();
    notion.serve_empty_children = true; // content "vanishes" on read-back
    let err = run_with(&config(), &two_node_vault(), &notion).unwrap_err();
    match err {
        RunError::PostValidation { root_url, failures } => {
            assert_eq!(root_url, "https://www.notion.so/page-0");
            assert_eq!(failures.len(), 1); // only node a has links
            assert_eq!(failures[0].missing, vec!["b".to_string()]);
        }
        other => panic!("expected PostValidation, got {other:?}"),
    }
}

#[test]
fn auth_error_message_hints_at_token_and_sharing() {
    let mut notion = FakeNotion::new();
    notion.fail_append_status = Some(401);
    let err = run_with(&config(), &two_node_vault(), &notion).unwrap_err();
    let message = err.message();
    assert!(message.contains("NOTION_TOKEN"), "got: {message}");
    assert!(message.contains("shared"), "got: {message}");
}

// ---------------------------------------------------------------------
// Further cases
// ---------------------------------------------------------------------

#[test]
fn progress_is_reported_line_by_line() {
    let notion = FakeNotion::new();
    let fs = InMemoryFileSystem::with_files(&[
        ("/vault/sub/index.org", &org("i", "Sub Index", "Overview.")),
        ("/vault/sub/a.org", &org("a", "Title A", "Content of A.")),
        ("/vault/sub/.INDEX", "index.org\nflat = false\n"),
    ]);
    let mut lines = vec![];
    execute(&config(), &fs, &notion, None, &mut lines).unwrap();
    assert_eq!(
        lines,
        vec![
            "Scanning vault: /vault",
            "Found 2 node(s).",
            "Pre-validating internal links...",
            "All links resolve locally.",
            "Creating snapshot root page \"Org-roam snapshot 2026-07-12T14:03:00Z\"...",
            "Root page created: https://www.notion.so/page-0",
            "Creating 1 directory page(s)...",
            "Creating 1 node page(s) (1 node(s) rendered on 1 directory page(s))...",
            "Writing content...",
            "Post-validating...",
            "",
            "Snapshot published and fully validated: 2 node(s), 2 block(s), 1.0s elapsed.",
            "Root page: https://www.notion.so/page-0",
        ]
    );
}

#[test]
fn planned_tree_names_ids_and_counts() {
    let notion = FakeNotion::new();
    let cfg = RunConfig {
        dry_run: true,
        ..config()
    };
    let mut lines = vec![];
    execute(&cfg, &two_node_vault(), &notion, None, &mut lines).unwrap();
    assert_eq!(
        &lines[4..],
        &[
            "",
            "Dry run: vault is valid and ready to publish. Planned structure:",
            "  - Node A (a, 1 block(s), 1 link(s))",
            "  - Node B (b, 1 block(s), 0 link(s))",
            "Nothing was written to Notion.",
        ]
    );
}

#[test]
fn merged_bodies_longer_than_a_request_stay_behind_their_headings() {
    let notion = FakeNotion::new();
    let body = |name: &str| {
        (0..150)
            .map(|i| format!("{name} {i}."))
            .collect::<Vec<_>>()
            .join("\n\n")
    };
    let fs = InMemoryFileSystem::with_files(&[
        ("/vault/m/index.org", &org("i", "Index", "Intro.")),
        ("/vault/m/a.org", &org("a", "Title A", &body("a"))),
        ("/vault/m/b.org", &org("b", "Title B", &body("b"))),
        ("/vault/m/.INDEX", "index.org\nflat = true\n"),
    ]);
    run_with(&config(), &fs, &notion).unwrap();
    let pages = notion.pages();
    let texts: Vec<String> = page_texts(&notion, &pages[1].id)
        .into_iter()
        .map(|(_, t)| t)
        .collect();
    let mut expected = vec!["Intro.".to_string(), "Title A".to_string()];
    expected.extend((0..150).map(|i| format!("a {i}.")));
    expected.push("Title B".to_string());
    expected.extend((0..150).map(|i| format!("b {i}.")));
    assert_eq!(texts, expected);
}

#[test]
fn time_stamps_in_file_names_do_not_order_merged_nodes() {
    let notion = FakeNotion::new();
    let fs = InMemoryFileSystem::with_files(&[
        ("/vault/m/index.org", &org("i", "Index", "Intro.")),
        (
            "/vault/m/20240101000000-2-second.org",
            &org("s", "Second", "Two."),
        ),
        (
            "/vault/m/20250101000000-1-first.org",
            &org("f", "First", "One."),
        ),
        ("/vault/m/.INDEX", "index.org\nflat = true\n"),
    ]);
    run_with(&config(), &fs, &notion).unwrap();
    let texts: Vec<String> = page_texts(&notion, "page-1")
        .into_iter()
        .map(|(_, t)| t)
        .collect();
    assert_eq!(texts, vec!["Intro.", "First", "One.", "Second", "Two."]);
}

#[test]
fn index_content_links_to_the_nodes_of_its_directory() {
    let notion = FakeNotion::new();
    let fs = InMemoryFileSystem::with_files(&[
        ("/vault/sub/index.org", &org("i", "Index", "See [[id:a]].")),
        ("/vault/sub/a.org", &org("a", "Title A", "Up: [[id:i]].")),
        ("/vault/sub/.INDEX", "index.org\nflat = false\n"),
    ]);
    run_with(&config(), &fs, &notion).unwrap();
    let pages = notion.pages();
    assert_eq!(mentions_on(&notion, &pages[1].id), vec![pages[2].id.clone()]);
    assert_eq!(mentions_on(&notion, &pages[2].id), vec![pages[1].id.clone()]);
}

#[test]
fn every_failure_says_what_was_being_done() {
    let context = |notion: FakeNotion, fs: &InMemoryFileSystem| {
        match run_with(&config(), fs, &notion).unwrap_err() {
            RunError::Api {
                context, root_url, ..
            } => (context, root_url.is_some()),
            other => panic!("expected Api error, got {other:?}"),
        }
    };
    let flat = InMemoryFileSystem::with_files(&[
        ("/vault/m/a.org", &org("a", "Say \"A\"", "One.")),
        ("/vault/m/index.org", &org("i", "Index", "")),
        ("/vault/m/.INDEX", "index.org\nflat = true\n"),
    ]);
    let creating = |n: usize| FakeNotion {
        fail_create_after: Some(n),
        ..FakeNotion::new()
    };
    assert_eq!(
        context(creating(0), &flat),
        ("failed to create the snapshot root page".to_string(), false)
    );
    assert_eq!(
        context(creating(1), &flat),
        (
            "failed to create the page for directory \"m\"".to_string(),
            true
        )
    );
    let writing = FakeNotion {
        fail_append_status: Some(500),
        ..FakeNotion::new()
    };
    assert_eq!(
        context(writing, &flat),
        (
            "failed to write heading for node \"Say \\\"A\\\"\"".to_string(),
            true
        )
    );
    let writing = FakeNotion {
        fail_append_status: Some(500),
        ..FakeNotion::new()
    };
    assert_eq!(
        context(writing, &two_node_vault()),
        (
            "failed to write content for node \"Node A\"".to_string(),
            true
        )
    );
    let reading = FakeNotion {
        fail_list: true,
        ..FakeNotion::new()
    };
    assert_eq!(
        context(reading, &two_node_vault()),
        (
            "post-validation read failed for node \"Node A\"".to_string(),
            true
        )
    );
}

#[test]
fn long_pages_are_read_back_cursor_by_cursor() {
    let mut notion = FakeNotion::new();
    notion.list_page_size = 2;
    let fs = InMemoryFileSystem::with_files(&[
        (
            "/vault/a.org",
            &org("a", "A", "One.\n\nTwo.\n\nThree.\n\nFour.\n\nSee [[id:b]]."),
        ),
        ("/vault/b.org", &org("b", "B", "Body.")),
    ]);
    run_with(&config(), &fs, &notion).unwrap();
    let cursors: Vec<Option<String>> = notion
        .list_calls()
        .into_iter()
        .filter(|(id, _)| id == "page-1")
        .map(|(_, c)| c)
        .collect();
    assert_eq!(
        cursors,
        vec![None, Some("2".to_string()), Some("4".to_string())]
    );
}

#[test]
fn a_token_is_needed_except_for_a_dry_run() {
    assert_eq!(TOKEN_ENV_VAR, "NOTION_TOKEN");
    assert_eq!(PARENT_PAGE_ID_ENV_VAR, "ORGNOTION_PARENT_PAGE_ID");
    assert_eq!(require_token(true, None), Ok(String::new()));
    assert_eq!(
        require_token(false, Some("t".to_string())),
        Ok("t".to_string())
    );
    assert_eq!(require_token(false, None), Err(RunError::MissingToken));
}

#[test]
fn at_least_one_call_may_be_in_flight() {
    let fs = two_node_vault();
    let mut cfg = config();
    let vault = scan(&fs, &cfg.vault_dir).unwrap();
    for (asked, given) in [(0, 1), (1, 1), (9, 9)] {
        cfg.concurrency = asked;
        match start(&cfg, &vault, None, NOW).outcome {
            Ok(Start::Publish { concurrency, .. }) => assert_eq!(concurrency, given),
            _ => panic!("expected to publish"),
        }
    }
}

#[test]
fn run_errors_read_as_sentences() {
    let fs = InMemoryFileSystem::with_files(&[("/vault/a.org", "no drawer\n")]);
    let err = run_with(&config(), &fs, &FakeNotion::new()).unwrap_err();
    assert!(matches!(err, RunError::Vault(_)));
    assert!(err.message().contains("/vault/a.org"), "{}", err.message());
    assert_eq!(
        RunError::PreValidation(vec![]).message(),
        "pre-validation failed: 0 broken link(s); nothing was written to Notion"
    );
    assert_eq!(
        RunError::MissingParentPageId.message(),
        "no parent page ID: pass --parent-page-id or set the ORGNOTION_PARENT_PAGE_ID environment variable"
    );
    assert_eq!(
        RunError::MissingToken.message(),
        "NOTION_TOKEN environment variable is not set. Create a Notion internal integration, copy its token, and export it as NOTION_TOKEN."
    );
    let post = RunError::PostValidation {
        root_url: "u".to_string(),
        failures: vec![],
    };
    assert_eq!(post.message(), "post-validation failed for 0 node(s)");
}

#[test]
fn content_is_written_only_when_every_page_is_there() {
    let fs = two_node_vault();
    let vault = scan(&fs, &VaultPath::parse(VAULT)).unwrap();
    let (mut publication, mut step) = Publication::begin(
        vault,
        VaultPath::parse(VAULT),
        "parent".to_string(),
        "Title",
    );
    for i in 0..3 {
        assert_eq!(publication.stage, Stage::Creating);
        assert!(matches!(step.action, Action::Create(_)));
        step = publication.created(Ok(CreatedPage {
            id: format!("p{i}"),
            url: format!("u{i}"),
        }));
    }
    // No node is on a directory's page, so the first round writes nothing.
    assert_eq!(publication.stage, Stage::Headings);
    match step.action {
        Action::Write(jobs) => assert!(jobs.is_empty()),
        _ => panic!("expected a round of writes"),
    }
    step = publication.written(vec![]);
    assert_eq!(publication.stage, Stage::Content);
    match step.action {
        Action::Write(jobs) => {
            let pages: Vec<&str> = jobs.iter().map(|j| j.page_id.as_str()).collect();
            assert_eq!(pages, vec!["p1", "p2"]);
        }
        _ => panic!("expected a round of writes"),
    }
    assert_eq!(publication.block_count, 2);
}
