//! Emphasis delimiters (`*`, `~`, `/`, ...) must not leak into span text as
//! literal characters.

use orgnotion::org_parser::{parse_node, Span};
use orgnotion::path::VaultPath;

#[test]
fn markup_delimiters_never_appear_in_span_text() {
    let node = parse_node(
        &VaultPath::parse("test.org"),
        ":PROPERTIES:\n:ID: a\n:END:\n#+TITLE: T\n\n\
         *SOL wrapping at driver vs solver.* Mirrors EVM ~ManageNativeToken~ but tangles.\n",
    )
    .unwrap();
    for block in &node.blocks {
        for span in block.spans() {
            if let Span::Text(t) = span {
                assert!(
                    !t.contains('*') && !t.contains('~'),
                    "markup delimiters leaked into plain text: {t:?}"
                );
            }
        }
    }
}
