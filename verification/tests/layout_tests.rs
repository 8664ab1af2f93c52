//! Where nodes go, and in which order.

use orgnotion::content::{build_link_map, snapshot_links};
use orgnotion::converter::LinkTarget;
use orgnotion::layout::{
    directory_page_title, node_dir, page_directories, placement, planned_tree, sortable_file_name,
    sorted_nodes, Placement,
};
use orgnotion::org_parser::Node;
use orgnotion::pages::{make_plan, PageCreation};
use orgnotion::path::VaultPath;
use orgnotion::ports::CreatedPage;
use orgnotion::vault::{DirIndex, Vault};

fn node(path: &str) -> Node {
    Node {
        id: path.to_string(),
        file_path: VaultPath::parse(path),
        title: path.to_uppercase(),
        links: vec![],
        tags: vec![],
        blocks: vec![],
    }
}

fn root() -> VaultPath {
    VaultPath::parse("/v")
}

/// `/v/m` is flat, `/v/s` has an index but is not, `/v/s/deep` has none.
fn vault() -> Vault {
    let index = |dir: &str, file: &str, flat: bool| DirIndex {
        dir: VaultPath::parse(dir),
        file: VaultPath::parse(file),
        flat,
    };
    Vault {
        nodes: vec![
            node("/v/a.org"),
            node("/v/m/20240101000000-b.org"),
            node("/v/m/20250101000000-a.org"),
            node("/v/m/z.org"),
            node("/v/s/deep/x.org"),
            node("/v/s/i.org"),
            node("/v/s/j.org"),
        ],
        indexes: vec![
            index("m", "/v/m/z.org", true),
            index("s", "/v/s/i.org", false),
        ],
    }
}

#[test]
fn nodes_go_to_their_directory() {
    let v = vault();
    assert_eq!(node_dir(&v.nodes[0], &root()).to_text(), "");
    assert_eq!(node_dir(&v.nodes[4], &root()).to_text(), "s/deep");
    assert_eq!(node_dir(&node("elsewhere/x.org"), &root()).to_text(), "elsewhere");
}

#[test]
fn placements_follow_the_indexes() {
    let v = vault();
    let places: Vec<Placement> = v.nodes.iter().map(|n| placement(&v, &root(), n)).collect();
    assert_eq!(
        places,
        vec![
            Placement::Paged,
            Placement::Merged,
            Placement::Merged,
            Placement::Index,
            Placement::Paged,
            Placement::Index,
            Placement::Paged,
        ]
    );
}

#[test]
fn index_nodes_lead_and_time_stamps_do_not_count() {
    let v = vault();
    // The root, then m with its index first, then s, then s/deep.
    assert_eq!(sorted_nodes(&v, &root()), vec![0, 3, 2, 1, 5, 6, 4]);
}

#[test]
fn only_full_time_stamps_are_left_out() {
    assert_eq!(sortable_file_name(&node("/v/20240101000000-b.org")), "b.org");
    assert_eq!(sortable_file_name(&node("/v/2024010100000-b.org")), "2024010100000-b.org");
    assert_eq!(sortable_file_name(&node("/v/20240101000000-")), "20240101000000-");
    assert_eq!(sortable_file_name(&node("/v/2024010100000x-b.org")), "2024010100000x-b.org");
    assert_eq!(sortable_file_name(&node("/v/plain.org")), "plain.org");
}

#[test]
fn directories_come_before_what_is_in_them() {
    let dirs: Vec<String> = page_directories(&vault(), &root())
        .iter()
        .map(VaultPath::to_text)
        .collect();
    assert_eq!(dirs, vec!["m", "s", "s/deep"]);
}

#[test]
fn a_directory_is_titled_by_its_index_node() {
    let v = vault();
    assert_eq!(directory_page_title(&v, &VaultPath::parse("m")), "/V/M/Z.ORG");
    assert_eq!(directory_page_title(&v, &VaultPath::parse("s/deep")), "deep");
}

#[test]
fn the_tree_shows_each_directory_once() {
    assert_eq!(
        planned_tree(&vault(), &root())[..4],
        [
            "  - /V/A.ORG (/v/a.org, 0 block(s), 0 link(s))",
            "  - /V/M/Z.ORG/ (flat)",
            "    - /V/M/20240101000000-B.ORG (/v/m/20240101000000-b.org, 0 block(s), 0 link(s))",
            "    - /V/M/20250101000000-A.ORG (/v/m/20250101000000-a.org, 0 block(s), 0 link(s))",
        ]
    );
}

#[test]
fn nodes_share_a_page_exactly_within_an_indexed_directory() {
    let plan = make_plan(&vault(), &root(), "Title");
    // The root page, three directories and three nodes of their own.
    let titles: Vec<&str> = plan.pages.iter().map(|p| p.title.as_str()).collect();
    assert_eq!(
        titles,
        vec![
            "Title",
            "/V/M/Z.ORG",
            "/V/S/I.ORG",
            "deep",
            "/V/A.ORG",
            "/V/S/DEEP/X.ORG",
            "/V/S/J.ORG",
        ]
    );
    let mut creation = PageCreation::new(plan, "parent".to_string());
    let mut parents = vec![];
    while let Some(q) = creation.next().request {
        let i = creation.created.len();
        parents.push(q.parent_id);
        creation.accept(CreatedPage {
            id: format!("p{i}"),
            url: format!("u{i}"),
        });
    }
    assert_eq!(parents, vec!["parent", "p0", "p0", "p2", "p0", "p3", "p2"]);
    assert_eq!(
        creation.node_page_ids(),
        vec!["p4", "p1", "p1", "p1", "p5", "p2", "p6"]
    );
    assert_eq!(creation.root_url(), Some("u0".to_string()));
}

#[test]
fn a_link_to_a_heading_names_the_page_that_holds_it() {
    let v = vault();
    let page_ids: Vec<String> = ["p4", "p1", "p1", "p1", "p5", "p2", "p6"]
        .iter()
        .map(|s| (*s).to_string())
        .collect();
    let mut headings = vec![None; 7];
    headings[1] = Some("h1".to_string());
    // Only merged nodes are linked to by their headings.
    headings[0] = Some("h0".to_string());
    let links = build_link_map(&v, &root(), &page_ids, &headings);
    assert_eq!(
        links.get("/v/m/20240101000000-b.org"),
        Some(&LinkTarget::Block {
            page_id: "p1".to_string(),
            url: "https://notion.so/p1#h1".to_string(),
            text: "/V/M/20240101000000-B.ORG".to_string(),
        })
    );
    for (id, page) in [("/v/a.org", "p4"), ("/v/m/20250101000000-a.org", "p1")] {
        assert_eq!(links.get(id), Some(&LinkTarget::Page(page.to_string())));
    }
    let plain = snapshot_links(&v, &root(), &page_ids);
    assert_eq!(
        plain.get("/v/m/20240101000000-b.org"),
        Some(&LinkTarget::Page("p1".to_string()))
    );
}
