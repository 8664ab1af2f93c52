# orgnotion

Publishes an [Org-roam](https://www.orgroam.com/) vault as a fresh, read-only
snapshot in [Notion](https://www.notion.com/).

Each run creates a new root page and mirrors the vault's directory tree under
it: one page per directory, one page per `.org` file, with `[[id:...]]` links
turned into page mentions. Nothing from earlier runs is touched.

An `.INDEX` file in a directory names one of its `.org` files as the
directory's index node and picks a layout:

```
index.org
flat = true
```

The index node's content is rendered on the directory's page, which takes the
node's title. With `flat = true` the directory's other files follow on the same
page, each introduced by its title; with `flat = false` they keep pages of
their own. A node tagged `:unreviewed:` starts with a warning. Org constructs
without a block of their own, such as tables, become plain paragraphs.

Every link must resolve within the vault, or nothing is written. When all is
written, every page is read back, and each link is checked against the page it
has to mention.

## Layout

- `src/` is the library, written in Verus. It does no input or output: files are
  read through a trait that the caller implements, and the calls to Notion are
  handed out as plain values, as are the replies that come back. Each function
  has a contract that says what comes out. `src/laws.rs` states what holds of a
  snapshot as a whole.
- `app/` is the program around it: arguments, files, HTTP, the clock.
- `tests/` runs the library against vaults and workspaces held in memory.

The library calls some code that is not verified: the Org parser, the language
names of the Notion API, and a few functions of std. Each such call stands in a
small function marked `external_body`, or is declared by `assume_specification`,
with a comment that says what is relied on. The Org parser counts bytes in 32
bits, so a longer file is refused.

## Usage

```sh
export NOTION_TOKEN=<integration token>
orgnotion <VAULT_DIR> --parent-page-id <ID>
```

`--parent-page-id` falls back to `ORGNOTION_PARENT_PAGE_ID`; `--title`,
`--dry-run` and `--concurrency` are optional.

Exit codes: `0` published and validated, `1` usage, token or API failure, `2`
broken links (nothing written), `3` links missing when read back.
