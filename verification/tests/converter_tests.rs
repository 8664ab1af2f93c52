//! Conversion of org blocks into Notion blocks.

use orgnotion::blocks::{Annotations, Block, Color, Mention, RichText};
use orgnotion::converter::{
    chunk_text, convert_blocks, named_language, normalize_code_language, page_mention,
    resolve_alias, rich_text, rich_text_mut, rich_text_of, text_run, Converter, LinkMap,
    LinkTarget,
};
use orgnotion::org_parser::{Markup, OrgBlock, Span};

fn map(pairs: &[(&str, &str)]) -> LinkMap {
    let mut links = LinkMap::new();
    for (id, page) in pairs {
        links.insert((*id).to_string(), LinkTarget::Page((*page).to_string()));
    }
    links
}

fn text_spans(s: &str) -> Vec<Span> {
    vec![Span::Text(s.to_string())]
}

fn paragraph_runs(block: &Block) -> &[RichText] {
    match block {
        Block::Paragraph { rich_text } => rich_text,
        other => panic!("expected a paragraph, got {other:?}"),
    }
}

fn content_of(run: &RichText) -> &str {
    match run {
        RichText::Text { content, .. } => content,
        other => panic!("expected text, got {other:?}"),
    }
}

fn link_of(run: &RichText) -> Option<&str> {
    match run {
        RichText::Text { link, .. } => link.as_deref(),
        other => panic!("expected text, got {other:?}"),
    }
}

fn style_of(run: &RichText) -> Annotations {
    match run {
        RichText::Text { annotations, .. }
        | RichText::Mention { annotations, .. }
        | RichText::Equation { annotations, .. } => *annotations,
    }
}

#[test]
fn marked_spans_carry_notion_annotations() {
    for (markup, field) in [
        (Markup::Bold, "bold"),
        (Markup::Italic, "italic"),
        (Markup::Underline, "underline"),
        (Markup::Strikethrough, "strikethrough"),
        (Markup::Code, "code"),
    ] {
        let blocks = convert_blocks(
            &[OrgBlock::Paragraph {
                spans: vec![Span::Marked {
                    text: "styled".to_string(),
                    markup,
                }],
            }],
            &map(&[]),
        );
        let run = &paragraph_runs(&blocks[0])[0];
        assert_eq!(content_of(run), "styled", "markup: {field}");
        let a = style_of(run);
        let set = [
            ("bold", a.bold),
            ("italic", a.italic),
            ("underline", a.underline),
            ("strikethrough", a.strikethrough),
            ("code", a.code),
        ];
        for (name, on) in set {
            assert_eq!(on, name == field, "markup: {field}");
        }
        assert_eq!(a.color, Color::Default);
    }
}

#[test]
fn paragraph_converts_to_notion_paragraph() {
    let blocks = convert_blocks(
        &[OrgBlock::Paragraph {
            spans: text_spans("hello"),
        }],
        &map(&[]),
    );
    assert!(matches!(blocks[0], Block::Paragraph { .. }));
    assert_eq!(content_of(&paragraph_runs(&blocks[0])[0]), "hello");
}

#[test]
fn heading_levels_map_and_clamp() {
    for (level, expected) in [
        (1u8, "heading_1"),
        (2, "heading_2"),
        (3, "heading_3"),
        (7, "heading_3"),
    ] {
        let blocks = convert_blocks(
            &[OrgBlock::Heading {
                level,
                spans: text_spans("h"),
            }],
            &map(&[]),
        );
        let kind = match &blocks[0] {
            Block::Heading1 { .. } => "heading_1",
            Block::Heading2 { .. } => "heading_2",
            Block::Heading3 { .. } => "heading_3",
            other => panic!("expected a heading, got {other:?}"),
        };
        assert_eq!(kind, expected, "org level {level}");
        assert_eq!(rich_text_of(&blocks[0]), Some(&[text_run("h")][..]));
    }
}

#[test]
fn list_items_convert() {
    let blocks = convert_blocks(
        &[
            OrgBlock::BulletItem {
                spans: text_spans("b"),
            },
            OrgBlock::NumberedItem {
                spans: text_spans("n"),
            },
        ],
        &map(&[]),
    );
    assert!(matches!(blocks[0], Block::BulletedListItem { .. }));
    assert!(matches!(blocks[1], Block::NumberedListItem { .. }));
}

#[test]
fn quote_converts() {
    let blocks = convert_blocks(
        &[OrgBlock::Quote {
            spans: text_spans("wise"),
        }],
        &map(&[]),
    );
    assert_eq!(
        blocks,
        vec![Block::Quote {
            rich_text: vec![text_run("wise")]
        }]
    );
}

#[test]
fn code_block_keeps_language_and_content() {
    let blocks = convert_blocks(
        &[OrgBlock::CodeBlock {
            language: Some("rust".to_string()),
            content: "fn main() {}".to_string(),
        }],
        &map(&[]),
    );
    match &blocks[0] {
        Block::Code {
            language,
            rich_text,
            caption,
        } => {
            assert_eq!(language, "rust");
            assert_eq!(content_of(&rich_text[0]), "fn main() {}");
            assert!(caption.is_empty());
        }
        other => panic!("expected code, got {other:?}"),
    }
}

#[test]
fn code_language_aliases_and_unknowns_normalize() {
    for (input, expected) in [
        (Some("sh"), "shell"),
        (Some("PYTHON"), "python"),
        (Some("emacs-lisp"), "lisp"),
        (Some("klingon"), "plain text"),
        (None, "plain text"),
    ] {
        let blocks = convert_blocks(
            &[OrgBlock::CodeBlock {
                language: input.map(String::from),
                content: String::new(),
            }],
            &map(&[]),
        );
        match &blocks[0] {
            Block::Code { language, .. } => assert_eq!(language, expected, "input {input:?}"),
            other => panic!("expected code, got {other:?}"),
        }
    }
}

#[test]
fn resolved_link_becomes_page_mention() {
    let blocks = convert_blocks(
        &[OrgBlock::Paragraph {
            spans: vec![
                Span::Text("see ".to_string()),
                Span::LinkRef {
                    id: "org-b".to_string(),
                    description: Some("other".to_string()),
                },
            ],
        }],
        &map(&[("org-b", "notion-b")]),
    );
    let rich = paragraph_runs(&blocks[0]);
    assert!(matches!(rich[0], RichText::Text { .. }));
    match &rich[1] {
        RichText::Mention { mention, .. } => assert_eq!(
            mention,
            &Mention::Page {
                id: "notion-b".to_string()
            }
        ),
        other => panic!("expected a mention, got {other:?}"),
    }
}

#[test]
fn unresolved_link_degrades_to_plain_text() {
    let blocks = convert_blocks(
        &[OrgBlock::Paragraph {
            spans: vec![Span::LinkRef {
                id: "missing".to_string(),
                description: None,
            }],
        }],
        &map(&[]),
    );
    assert_eq!(content_of(&paragraph_runs(&blocks[0])[0]), "[[id:missing]]");
}

#[test]
fn unresolved_link_prefers_its_description() {
    let blocks = convert_blocks(
        &[OrgBlock::Paragraph {
            spans: vec![Span::LinkRef {
                id: "missing".to_string(),
                description: Some("nice name".to_string()),
            }],
        }],
        &map(&[]),
    );
    assert_eq!(content_of(&paragraph_runs(&blocks[0])[0]), "nice name");
}

#[test]
fn external_link_becomes_inline_link_run() {
    let blocks = convert_blocks(
        &[OrgBlock::Paragraph {
            spans: vec![
                Span::ExternalLink {
                    url: "https://example.com".to_string(),
                    description: Some("site".to_string()),
                },
                Span::ExternalLink {
                    url: "https://example.org".to_string(),
                    description: None,
                },
            ],
        }],
        &map(&[]),
    );
    let rich = paragraph_runs(&blocks[0]);
    assert_eq!(content_of(&rich[0]), "site");
    assert_eq!(link_of(&rich[0]), Some("https://example.com"));
    // A bare URL links to itself, with the URL as display text.
    assert_eq!(content_of(&rich[1]), "https://example.org");
    assert_eq!(link_of(&rich[1]), Some("https://example.org"));
}

#[test]
fn long_text_is_chunked_to_notion_limit() {
    let long = "a".repeat(4500);
    let blocks = convert_blocks(
        &[OrgBlock::Paragraph {
            spans: text_spans(&long),
        }],
        &map(&[]),
    );
    let rich = paragraph_runs(&blocks[0]);
    assert_eq!(rich.len(), 3); // 2000 + 2000 + 500
    let total: usize = rich.iter().map(|r| content_of(r).len()).sum();
    assert_eq!(total, 4500);
    let lengths: Vec<usize> = rich.iter().map(|r| content_of(r).len()).collect();
    assert_eq!(lengths, vec![2000, 2000, 500]);
}

#[test]
fn empty_paragraph_still_produces_valid_rich_text() {
    let blocks = convert_blocks(&[OrgBlock::Paragraph { spans: vec![] }], &map(&[]));
    let rich = paragraph_runs(&blocks[0]);
    assert_eq!(rich.len(), 1);
    assert_eq!(content_of(&rich[0]), "");
}

#[test]
fn converter_without_transformers_matches_convert_blocks() {
    let input = [OrgBlock::Paragraph {
        spans: text_spans("same"),
    }];
    assert_eq!(
        Converter::new().convert(&input, &map(&[])),
        convert_blocks(&input, &map(&[]))
    );
}

#[test]
fn org_transformers_rewrite_blocks_before_conversion() {
    let converter = Converter::new()
        // Steps run in registration order: first drop quotes...
        .with_org_transformer(|blocks: Vec<OrgBlock>| {
            blocks
                .into_iter()
                .filter(|b| !matches!(b, OrgBlock::Quote { .. }))
                .collect()
        })
        // ...then prepend a heading to whatever survived.
        .with_org_transformer(|mut blocks: Vec<OrgBlock>| {
            blocks.insert(
                0,
                OrgBlock::Heading {
                    level: 1,
                    spans: text_spans("added"),
                },
            );
            blocks
        });
    let blocks = converter.convert(
        &[
            OrgBlock::Quote {
                spans: text_spans("dropped"),
            },
            OrgBlock::Paragraph {
                spans: text_spans("kept"),
            },
        ],
        &map(&[]),
    );
    assert_eq!(blocks.len(), 2);
    assert!(matches!(blocks[0], Block::Heading1 { .. }));
    assert_eq!(content_of(&paragraph_runs(&blocks[1])[0]), "kept");
}

#[test]
fn notion_transformers_rewrite_converted_blocks() {
    // A step that promotes every paragraph to a quote.
    let converter = Converter::new().with_notion_transformer(|blocks: Vec<Block>| {
        blocks
            .into_iter()
            .map(|b| match b {
                Block::Paragraph { rich_text } => Block::Quote { rich_text },
                other => other,
            })
            .collect()
    });
    let blocks = converter.convert(
        &[OrgBlock::Paragraph {
            spans: text_spans("p"),
        }],
        &map(&[]),
    );
    assert!(matches!(blocks[0], Block::Quote { .. }));
    assert_eq!(rich_text_of(&blocks[0]), Some(&[text_run("p")][..]));
}

#[test]
fn org_transformer_output_feeds_notion_transformer() {
    let converter = Converter::new()
        .with_org_transformer(|blocks: Vec<OrgBlock>| {
            blocks
                .into_iter()
                .map(|b| match b {
                    OrgBlock::Paragraph { spans } => OrgBlock::Quote { spans },
                    other => other,
                })
                .collect()
        })
        .with_notion_transformer(|blocks: Vec<Block>| {
            blocks
                .into_iter()
                .filter(|b| matches!(b, Block::Quote { .. }))
                .collect()
        });
    let blocks = converter.convert(
        &[
            OrgBlock::Paragraph {
                spans: text_spans("promoted"),
            },
            OrgBlock::BulletItem {
                spans: text_spans("filtered out"),
            },
        ],
        &map(&[]),
    );
    assert_eq!(blocks.len(), 1);
    assert_eq!(
        blocks[0],
        Block::Quote {
            rich_text: vec![text_run("promoted")]
        }
    );
}

#[test]
fn helper_shapes_match_notion_api() {
    match page_mention("pid") {
        RichText::Mention {
            mention: Mention::Page { id },
            ..
        } => assert_eq!(id, "pid"),
        other => panic!("expected a page mention, got {other:?}"),
    }
    let run = text_run("hi");
    assert_eq!(content_of(&run), "hi");
    assert!(!style_of(&run).bold);
}

#[test]
fn rich_text_accessors_cover_every_inline_block_kind() {
    let runs = || vec![text_run("x")];
    let with_rich_text = [
        Block::Paragraph { rich_text: runs() },
        Block::Heading1 { rich_text: runs() },
        Block::Heading2 { rich_text: runs() },
        Block::Heading3 { rich_text: runs() },
        Block::Heading4 { rich_text: runs() },
        Block::BulletedListItem { rich_text: runs() },
        Block::NumberedListItem { rich_text: runs() },
        Block::Quote { rich_text: runs() },
        Block::Toggle { rich_text: runs() },
        Block::ToDo { rich_text: runs() },
        Block::Callout {
            rich_text: runs(),
            icon: None,
        },
    ];
    for mut block in with_rich_text {
        assert_eq!(
            rich_text_of(&block).map(<[_]>::len),
            Some(1),
            "expected inline rich text on {block:?}"
        );
        rich_text_mut(&mut block)
            .expect("mutable access matches read access")
            .push(text_run("y"));
        assert_eq!(rich_text_of(&block).map(<[_]>::len), Some(2));
    }

    // Code is deliberately excluded (verbatim content, not prose), and
    // kinds without inline rich text yield None.
    let without = [
        Block::Code {
            caption: Vec::new(),
            rich_text: runs(),
            language: "rust".to_string(),
        },
        Block::Divider,
        Block::Other,
    ];
    for mut block in without {
        assert!(rich_text_of(&block).is_none());
        assert!(rich_text_mut(&mut block).is_none());
    }
}

#[test]
fn chunks_count_characters_and_lose_none() {
    let s = "é".repeat(2001);
    let pieces = chunk_text(&s);
    assert_eq!(pieces.len(), 2);
    assert_eq!(pieces[0].chars().count(), 2000);
    assert_eq!(pieces[1], "é");
    assert_eq!(pieces.concat(), s);
    assert_eq!(chunk_text(""), vec![String::new()]);
    assert_eq!(chunk_text(&"a".repeat(2000)).len(), 1);
}

#[test]
fn runs_are_cut_at_one_hundred() {
    let spans: Vec<Span> = (0..150).map(|i| Span::Text(format!("t{i}"))).collect();
    let runs = rich_text(&spans, &map(&[]));
    assert_eq!(runs.len(), 100);
    assert_eq!(runs[0], text_run("t0"));
    assert_eq!(runs[99], text_run("t99"));
}

#[test]
fn link_to_a_block_becomes_a_linked_run() {
    let mut links = LinkMap::new();
    links.insert(
        "x".to_string(),
        LinkTarget::Block {
            page_id: "p".to_string(),
            url: "https://www.notion.so/p#b".to_string(),
            text: "Title of X".to_string(),
        },
    );
    let described = Span::LinkRef {
        id: "x".to_string(),
        description: Some("here".to_string()),
    };
    let bare = Span::LinkRef {
        id: "x".to_string(),
        description: None,
    };
    let runs = rich_text(&vec![described, bare], &links);
    // The title of the target is shown, whatever the description.
    assert_eq!(content_of(&runs[0]), "Title of X");
    assert_eq!(link_of(&runs[0]), Some("https://www.notion.so/p#b"));
    assert_eq!(content_of(&runs[1]), "Title of X");
    assert_eq!(link_of(&runs[1]), Some("https://www.notion.so/p#b"));
}

#[test]
fn languages_are_found_by_name_and_alias() {
    assert_eq!(resolve_alias("sh"), "shell");
    assert_eq!(resolve_alias("rust"), "rust");
    assert_eq!(named_language(None), "plain text");
    assert_eq!(named_language(Some("rust".to_string())), "rust");
    assert_eq!(normalize_code_language(&Some("Rust".to_string())), "rust");
    assert_eq!(normalize_code_language(&Some("C++".to_string())), "c++");
    assert_eq!(normalize_code_language(&Some(String::new())), "plain text");
}
