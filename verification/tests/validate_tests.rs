//! Validation before and after publishing.

use orgnotion::blocks::{Block, RichText};
use orgnotion::converter::{page_mention, text_run, LinkMap, LinkTarget};
use orgnotion::notion::ChildrenWalk;
use orgnotion::org_parser::Node;
use orgnotion::path::VaultPath;
use orgnotion::ports::{ChildBlock, ChildrenPage};
use orgnotion::validate::{
    collect_links, page_of_target, page_to_check, post_validate, pre_validate,
    PostValidationResult,
};
use orgnotion::vault::Vault;
use std::collections::HashMap;

fn paragraph(rich_text: Vec<RichText>) -> Block {
    Block::Paragraph { rich_text }
}

fn node(id: &str, links: &[&str]) -> Node {
    Node {
        id: id.to_string(),
        file_path: VaultPath::parse(&format!("{id}.org")),
        title: id.to_uppercase(),
        links: links.iter().map(|s| (*s).to_string()).collect(),
        tags: vec![],
        blocks: vec![],
    }
}

fn map(pairs: &[(&str, &str)]) -> LinkMap {
    let mut links = LinkMap::new();
    for (id, page) in pairs {
        links.insert((*id).to_string(), LinkTarget::Page((*page).to_string()));
    }
    links
}

/// Blocks by the block that they stand under.
struct Workspace {
    children: HashMap<String, Vec<Block>>,
    list_page_size: usize,
    list_calls: Vec<(String, Option<String>)>,
}

impl Workspace {
    fn new() -> Self {
        Workspace {
            children: HashMap::new(),
            list_page_size: 100,
            list_calls: vec![],
        }
    }

    fn child_id(parent_id: &str, index: usize) -> String {
        format!("{parent_id}-child-{index}")
    }

    fn append(&mut self, block_id: &str, blocks: Vec<Block>) {
        self.children
            .entry(block_id.to_string())
            .or_default()
            .extend(blocks);
    }

    fn list_children(&mut self, block_id: &str, cursor: Option<String>) -> ChildrenPage {
        self.list_calls.push((block_id.to_string(), cursor.clone()));
        let all = self.children.get(block_id).cloned().unwrap_or_default();
        let from: usize = cursor.map_or(0, |c| c.parse().expect("cursors are offsets"));
        let to = (from + self.list_page_size).min(all.len());
        ChildrenPage {
            blocks: (from..to)
                .map(|i| {
                    let id = Self::child_id(block_id, i);
                    ChildBlock {
                        has_children: self.children.contains_key(&id),
                        id,
                        block: all[i].clone(),
                    }
                })
                .collect(),
            next_cursor: if to < all.len() {
                Some(to.to_string())
            } else {
                None
            },
        }
    }

    /// Reads the node's page back and checks it.
    fn validate(&mut self, node: &Node, links: &LinkMap) -> PostValidationResult {
        let page_id = match page_to_check(node, links) {
            Ok(page_id) => page_id,
            Err(result) => return result,
        };
        let mut walk = ChildrenWalk::new(&page_id);
        while let Some(q) = walk.next() {
            let page = self.list_children(&q.block_id, q.cursor);
            walk.accept(page);
        }
        post_validate(node, links, &walk.out)
    }
}

#[test]
fn pre_validate_passes_when_all_links_resolve() {
    let vault = Vault {
        nodes: vec![node("a", &["b"]), node("b", &["a"])],
        indexes: vec![],
    };
    assert!(pre_validate(&vault).is_ok());
}

#[test]
fn pre_validate_collects_every_broken_link() {
    let vault = Vault {
        nodes: vec![node("a", &["ghost-1", "b"]), node("b", &["ghost-2"])],
        indexes: vec![],
    };
    let broken = pre_validate(&vault).unwrap_err();
    assert_eq!(broken.len(), 2);
    assert_eq!(broken[0].target_id, "ghost-1");
    assert_eq!(broken[0].source_file, "a.org");
    assert_eq!(broken[1].target_id, "ghost-2");
    let rendered = broken[0].message();
    assert!(rendered.contains("a.org"), "got: {rendered}");
    assert!(rendered.contains("ghost-1"), "got: {rendered}");
}

#[test]
fn pre_validate_of_empty_vault_passes() {
    let vault = Vault {
        nodes: vec![],
        indexes: vec![],
    };
    assert!(pre_validate(&vault).is_ok());
}

#[test]
fn post_validate_passes_when_mentions_landed() {
    let mut notion = Workspace::new();
    notion.append(
        "page-a",
        vec![paragraph(vec![text_run("see "), page_mention("page-b")])],
    );
    let result = notion.validate(
        &node("a", &["b"]),
        &map(&[("a", "page-a"), ("b", "page-b")]),
    );
    assert!(result.passed());
}

#[test]
fn post_validate_flags_missing_mention() {
    let mut notion = Workspace::new();
    notion.append("page-a", vec![paragraph(vec![text_run("no mention here")])]);
    let result = notion.validate(
        &node("a", &["b"]),
        &map(&[("a", "page-a"), ("b", "page-b")]),
    );
    assert!(!result.passed());
    assert_eq!(result.missing, vec!["b".to_string()]);
}

#[test]
fn post_validate_flags_mention_of_wrong_page() {
    let mut notion = Workspace::new();
    notion.append(
        "page-a",
        vec![paragraph(vec![page_mention("page-INTRUDER")])],
    );
    let result = notion.validate(
        &node("a", &["b"]),
        &map(&[("a", "page-a"), ("b", "page-b")]),
    );
    assert_eq!(result.missing, vec!["b".to_string()]);
}

#[test]
fn post_validate_follows_pagination_cursors() {
    let mut notion = Workspace::new();
    notion.list_page_size = 1; // force one block per page of results
    let blocks: Vec<_> = ["x", "y"]
        .iter()
        .map(|t| paragraph(vec![text_run(t)]))
        .chain(std::iter::once(paragraph(vec![page_mention("page-b")])))
        .collect();
    notion.append("page-a", blocks);

    let result = notion.validate(
        &node("a", &["b"]),
        &map(&[("a", "page-a"), ("b", "page-b")]),
    );
    assert!(result.passed());
    // 3 blocks at page_size 1 → 3 list calls, cursor advancing.
    let calls = &notion.list_calls;
    assert_eq!(calls.len(), 3);
    assert_eq!(calls[0].1, None);
    assert_eq!(calls[1].1, Some("1".to_string()));
    assert_eq!(calls[2].1, Some("2".to_string()));
}

#[test]
fn post_validate_finds_mentions_in_nested_blocks() {
    let mut notion = Workspace::new();
    notion.append(
        "page-a",
        vec![Block::BulletedListItem {
            rich_text: vec![text_run("outer")],
        }],
    );
    notion.append(
        &Workspace::child_id("page-a", 0),
        vec![paragraph(vec![page_mention("page-b")])],
    );
    let result = notion.validate(
        &node("a", &["b"]),
        &map(&[("a", "page-a"), ("b", "page-b")]),
    );
    assert!(result.passed());
}

#[test]
fn post_validate_without_page_mapping_reports_all_links_missing() {
    let mut notion = Workspace::new();
    let result = notion.validate(&node("a", &["b", "c"]), &map(&[]));
    assert_eq!(result.missing, vec!["b".to_string(), "c".to_string()]);
    assert!(notion.list_calls.is_empty());
}

#[test]
fn blocks_are_read_depth_first() {
    let mut notion = Workspace::new();
    let item = |t: &str| Block::BulletedListItem {
        rich_text: vec![text_run(t)],
    };
    notion.list_page_size = 1;
    notion.append("p", vec![item("1"), item("2"), item("3")]);
    notion.append(
        &Workspace::child_id("p", 0),
        vec![item("1.1"), item("1.2")],
    );
    let nested = Workspace::child_id(&Workspace::child_id("p", 0), 1);
    notion.append(&nested, vec![item("1.2.1")]);
    notion.append(&Workspace::child_id("p", 2), vec![item("3.1")]);

    let mut walk = ChildrenWalk::new("p");
    while let Some(q) = walk.next() {
        let page = notion.list_children(&q.block_id, q.cursor);
        walk.accept(page);
    }
    let blocks: Vec<Block> = walk.out.into_iter().map(|c| c.block).collect();
    let expected: Vec<Block> = ["1", "1.1", "1.2", "1.2.1", "2", "3", "3.1"]
        .iter()
        .map(|t| item(t))
        .collect();
    assert_eq!(blocks, expected);
}

#[test]
fn a_link_to_a_block_is_found_by_its_url() {
    let mut links = map(&[("a", "page-a")]);
    links.insert(
        "b".to_string(),
        LinkTarget::Block {
            page_id: "page-b".to_string(),
            url: "https://www.notion.so/page-b#x".to_string(),
            text: "B".to_string(),
        },
    );
    let linked = RichText::Text {
        content: "B".to_string(),
        link: Some("https://www.notion.so/page-b#x".to_string()),
        annotations: Default::default(),
        plain_text: "B".to_string(),
        href: None,
    };
    let mut notion = Workspace::new();
    assert_eq!(
        notion.validate(&node("a", &["b"]), &links).missing,
        vec!["b".to_string()]
    );
    notion.append("page-a", vec![paragraph(vec![linked])]);
    assert!(notion.validate(&node("a", &["b"]), &links).passed());
    let target = links.get("b").expect("b is there");
    assert_eq!(page_of_target(target), "page-b");
}

#[test]
fn mentions_in_code_are_not_links() {
    let code = ChildBlock {
        id: "c".to_string(),
        has_children: false,
        block: Block::Code {
            caption: vec![],
            rich_text: vec![page_mention("page-b")],
            language: "rust".to_string(),
        },
    };
    let found = collect_links(&[code]);
    assert!(!found.page_ids.contains("page-b"));
    let plain = ChildBlock {
        id: "p".to_string(),
        has_children: false,
        block: paragraph(vec![page_mention("page-b")]),
    };
    assert!(collect_links(&[plain]).page_ids.contains("page-b"));
}

#[test]
fn a_broken_link_names_the_file_and_the_target() {
    let vault = Vault {
        nodes: vec![node("a", &["ghost"])],
        indexes: vec![],
    };
    let broken = pre_validate(&vault).unwrap_err();
    assert_eq!(broken[0].source_node_id, "a");
    assert_eq!(
        broken[0].message(),
        "a.org (node a) links to unknown id [[id:ghost]]"
    );
}
