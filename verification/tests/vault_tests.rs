//! Scanning of vaults held in memory.

use orgnotion::path::VaultPath;
use orgnotion::ports::{FileSystem, FsError};
use orgnotion::vault::{scan, Vault, VaultError};
use std::cell::RefCell;
use std::collections::BTreeMap;

const VAULT: &str = "/vault";

/// A vault held entirely in memory: path to file contents.
#[derive(Default)]
struct InMemoryFileSystem {
    files: BTreeMap<String, String>,
}

impl InMemoryFileSystem {
    fn with_files(files: &[(&str, &str)]) -> Self {
        Self {
            files: files
                .iter()
                .map(|(p, c)| ((*p).to_string(), (*c).to_string()))
                .collect(),
        }
    }
}

impl FileSystem for InMemoryFileSystem {
    fn list_org_files(&self, dir: &VaultPath) -> Result<Vec<VaultPath>, FsError> {
        if self.files.is_empty() {
            return Err(FsError::NotADirectory(dir.clone()));
        }
        // Reversed, so that nothing is in order by accident.
        Ok(self
            .files
            .keys()
            .rev()
            .filter(|p| p.starts_with(&dir.to_text()) && p.ends_with(".org"))
            .map(|p| VaultPath::parse(p))
            .collect())
    }

    fn read_to_string(&self, path: &VaultPath) -> Result<String, FsError> {
        self.files
            .get(&path.to_text())
            .cloned()
            .ok_or_else(|| FsError::Io {
                path: path.clone(),
                message: "no such file".to_string(),
            })
    }

    fn file_exists(&self, path: &VaultPath) -> bool {
        self.files.contains_key(&path.to_text())
    }
}

fn org(id: &str, title: &str, body: &str) -> String {
    format!(":PROPERTIES:\n:ID: {id}\n:END:\n#+TITLE: {title}\n\n{body}\n")
}

fn scan_files(files: &[(&str, &str)]) -> Result<Vault, VaultError> {
    scan(
        &InMemoryFileSystem::with_files(files),
        &VaultPath::parse(VAULT),
    )
}

fn index_dirs(vault: &Vault) -> Vec<String> {
    vault.indexes.iter().map(|i| i.dir.to_text()).collect()
}

#[test]
fn scans_and_parses_all_org_files_in_sorted_order() {
    let vault = scan_files(&[
        ("/vault/z-last.org", &org("z", "Zed", "zzz")),
        ("/vault/a-first.org", &org("a", "Ay", "aaa")),
        ("/vault/sub/m-mid.org", &org("m", "Em", "mmm")),
        ("/vault/notes.txt", "not an org file"),
    ])
    .unwrap();
    let ids: Vec<_> = vault.nodes.iter().map(|n| n.id.as_str()).collect();
    assert_eq!(ids, vec!["a", "m", "z"]);
}

#[test]
fn index_marker_is_parsed_and_keyed_relative_to_vault_root() {
    let vault = scan_files(&[
        ("/vault/a.org", &org("a", "Ay", "aaa")),
        ("/vault/merged/b.org", &org("b", "Bee", "bbb")),
        ("/vault/merged/index.org", &org("i", "Index", "iii")),
        ("/vault/merged/.INDEX", "index.org\nflat = true\n"),
        ("/vault/normal/c.org", &org("c", "Cee", "ccc")),
    ])
    .unwrap();
    assert_eq!(index_dirs(&vault), vec!["merged"]);
    let merged = VaultPath::parse("merged");
    let index = vault.index_of(&merged).unwrap();
    assert_eq!(index.file, VaultPath::parse("/vault/merged/index.org"));
    assert!(index.flat);
    assert_eq!(vault.index_node(&merged).unwrap().id, "i");
    assert!(vault.index_node(&VaultPath::parse("normal")).is_none());
}

#[test]
fn index_marker_lines_may_come_in_any_order_and_flat_may_be_false() {
    let vault = scan_files(&[
        ("/vault/sub/index.org", &org("i", "Index", "iii")),
        ("/vault/sub/.INDEX", "\nflat = false\n\nindex.org\n"),
    ])
    .unwrap();
    assert!(!vault.index_of(&VaultPath::parse("sub")).unwrap().flat);
}

#[test]
fn index_marker_at_vault_root_is_the_empty_path() {
    let vault = scan_files(&[
        ("/vault/a.org", &org("a", "Ay", "aaa")),
        ("/vault/.INDEX", "a.org\nflat = true\n"),
    ])
    .unwrap();
    assert_eq!(index_dirs(&vault), vec![""]);
    assert_eq!(vault.indexes[0].dir, VaultPath::empty());
}

#[test]
fn no_marker_means_no_indexes() {
    let vault = scan_files(&[("/vault/sub/a.org", &org("a", "Ay", "aaa"))]).unwrap();
    assert!(vault.indexes.is_empty());
}

fn scan_index_error(marker_text: &str) -> String {
    let err = scan_files(&[
        ("/vault/sub/a.org", &org("a", "Ay", "aaa")),
        ("/vault/sub/.INDEX", marker_text),
    ])
    .unwrap_err();
    let rendered = err.message();
    assert!(
        matches!(err, VaultError::InvalidIndex { .. }),
        "{rendered}"
    );
    assert!(rendered.contains("sub"), "got: {rendered}");
    rendered
}

#[test]
fn index_marker_errors_are_specific() {
    assert!(scan_index_error("a.org\n").contains("missing the \"flat"));
    assert!(scan_index_error("flat = true\n").contains("missing the index node's file path"));
    assert!(scan_index_error("a.org\nflat = maybe\n").contains("must be true or false"));
    assert!(scan_index_error("a.org\nnested = true\n").contains("unknown option"));
    assert!(scan_index_error("a.org\nflat = true\nflat = false\n").contains("more than once"));
    assert!(scan_index_error("a.org\nb.org\nflat = true\n").contains("more than one file path"));
    assert!(scan_index_error("ghost.org\nflat = true\n").contains("not an .org node file"));
}

#[test]
fn index_marker_must_name_a_file_in_its_own_directory() {
    let err = scan_files(&[
        ("/vault/sub/a.org", &org("a", "Ay", "aaa")),
        ("/vault/sub/deeper/b.org", &org("b", "Bee", "bbb")),
        ("/vault/sub/.INDEX", "deeper/b.org\nflat = true\n"),
    ])
    .unwrap_err();
    assert!(matches!(err, VaultError::InvalidIndex { .. }));
}

#[test]
fn id_index_maps_ids_to_nodes() {
    let vault = scan_files(&[("/vault/a.org", &org("a", "Ay", "body"))]).unwrap();
    let index = vault.id_index();
    assert_eq!(vault.nodes[*index.get("a").unwrap()].title, "Ay");
    assert!(index.get("b").is_none());
}

#[test]
fn missing_directory_errors() {
    let fs = InMemoryFileSystem::default();
    let err = scan(&fs, &VaultPath::parse("/nowhere")).unwrap_err();
    assert!(matches!(err, VaultError::Fs(_)));
    assert_eq!(
        err.message(),
        "vault directory not found or not a directory: /nowhere"
    );
}

#[test]
fn unparsable_file_errors_with_its_path() {
    let err = scan_files(&[("/vault/broken.org", "no id here\n")]).unwrap_err();
    assert!(err.message().contains("broken.org"));
}

#[test]
fn duplicate_ids_across_files_error() {
    let err = scan_files(&[
        ("/vault/one.org", &org("dup", "One", "x")),
        ("/vault/two.org", &org("dup", "Two", "y")),
    ])
    .unwrap_err();
    assert_eq!(
        err.message(),
        "duplicate org-roam ID \"dup\" found in both /vault/one.org and /vault/two.org \
         — IDs must be unique across the vault"
    );
    match err {
        VaultError::DuplicateId { id, first, second } => {
            assert_eq!(id, "dup");
            assert!(first.contains("one.org"));
            assert!(second.contains("two.org"));
        }
        other => panic!("expected DuplicateId, got {other:?}"),
    }
}

/// Notes what is asked of the file system behind it.
struct Noting {
    inner: InMemoryFileSystem,
    asked: RefCell<Vec<String>>,
}

impl FileSystem for Noting {
    fn list_org_files(&self, dir: &VaultPath) -> Result<Vec<VaultPath>, FsError> {
        self.inner.list_org_files(dir)
    }

    fn read_to_string(&self, path: &VaultPath) -> Result<String, FsError> {
        self.asked.borrow_mut().push(path.to_text());
        self.inner.read_to_string(path)
    }

    fn file_exists(&self, path: &VaultPath) -> bool {
        self.inner.file_exists(path)
    }
}

#[test]
fn nothing_is_read_beyond_a_failure() {
    let noting = |files: &[(&str, &str)]| Noting {
        inner: InMemoryFileSystem::with_files(files),
        asked: RefCell::default(),
    };
    let fs = noting(&[
        ("/vault/a.org", &org("a", "A", "x")),
        ("/vault/b.org", "no id here\n"),
        ("/vault/c.org", &org("c", "C", "x")),
        ("/vault/.INDEX", "a.org\nflat = true\n"),
    ]);
    assert!(scan(&fs, &VaultPath::parse(VAULT)).is_err());
    assert_eq!(*fs.asked.borrow(), vec!["/vault/a.org", "/vault/b.org"]);

    let fs = noting(&[
        ("/vault/p/a.org", &org("a", "A", "x")),
        ("/vault/p/.INDEX", "wrong\n"),
        ("/vault/q/b.org", &org("b", "B", "x")),
        ("/vault/q/.INDEX", "b.org\nflat = true\n"),
    ]);
    assert!(scan(&fs, &VaultPath::parse(VAULT)).is_err());
    assert_eq!(
        *fs.asked.borrow(),
        vec!["/vault/p/a.org", "/vault/q/b.org", "/vault/p/.INDEX"]
    );
}

#[test]
fn a_file_that_is_too_long_is_named_in_the_error() {
    let err = VaultError::TooLong {
        path: VaultPath::parse("/vault/huge.org"),
    };
    assert_eq!(
        err.message(),
        "/vault/huge.org: file is longer than 4294967295 bytes"
    );
}
