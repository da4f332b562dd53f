use cosense_core::inline::parse_inline;
use cosense_core::parser::parse;
use cosense_core::render_markdown::render_markdown;
use cosense_core::{convert, looks_like_cosense, Block, Document, Emphasis, Inline, ListItem};

#[test]
fn heading_levels() {
    assert_eq!(convert("[* Heading]"), "# Heading");
    assert_eq!(convert("[*** Deep] tail"), "### Deep tail");
    assert_eq!(convert("[* ]"), "#");
}

#[test]
fn six_stars_is_not_a_heading() {
    assert_eq!(convert("[****** x]"), "**x**");
}

#[test]
fn text_styles() {
    assert_eq!(convert("a [/ italic] b"), "a *italic* b");
    assert_eq!(convert("[[bold]]"), "**bold**");
    assert_eq!(convert("x [*/ strong italic]"), "x ***strong italic***");
    assert_eq!(convert("x [*- bold strike]"), "x **~~bold strike~~**");
    assert_eq!(convert("x [/- italic strike]"), "x *~~italic strike~~*");
    assert_eq!(convert("x [- strikethrough]"), "x ~~strikethrough~~");
    assert_eq!(convert("x [** bold]"), "x **bold**");
}

#[test]
fn page_path_is_not_italic() {
    assert_eq!(convert("[/project/page]"), "[/project/page]");
}

#[test]
fn lists_with_spaces_tabs_and_full_width_spaces() {
    assert_eq!(convert(" a\n  b\n   c"), "- a\n  - b\n    - c");
    assert_eq!(convert("\ta\n\t\tb"), "- a\n  - b");
    assert_eq!(convert("\u{3000}a\n\u{3000}\u{3000}b"), "- a\n  - b");
}

#[test]
fn irregular_indentation_is_normalized() {
    assert_eq!(convert("   a\n b"), "- a\n- b");
    assert_eq!(convert(" a\n   b\n  c"), "- a\n  - b\n  - c");
}

#[test]
fn code_directive() {
    assert_eq!(convert("code:a.py\n print(1)\n  pass"), "```py\nprint(1)\n pass\n```");
    assert_eq!(convert("code:sh\n ls\n\n ls -a\ntext"), "```sh\nls\n\nls -a\n```\ntext");
    assert_eq!(convert("code:\n x"), "```\nx\n```");
}

#[test]
fn fenced_code() {
    assert_eq!(convert("```rust\nfn main() {}\n```"), "```rust\nfn main() {}\n```");
    assert_eq!(convert("```\nopen"), "```\nopen\n```");
}

#[test]
fn math_block() {
    assert_eq!(convert("code:tex\n x^2"), "$$\nx^2\n$$");
    assert_eq!(convert("code:TeX\n y"), "$$\ny\n$$");
}

#[test]
fn table_directive() {
    assert_eq!(
        convert("table:Title\n a\tb\n 1\t2\t3"),
        "## Title\n\n| a | b |  |\n|---|---|---|\n| 1 | 2 | 3 |"
    );
    assert_eq!(convert("table:\n h\n v"), "| h |\n|---|\n| v |");
    assert_eq!(convert("table:empty"), "");
}

#[test]
fn links_and_media() {
    assert_eq!(convert("[Label https://example.com]"), "[Label](https://example.com)");
    assert_eq!(convert("[https://example.com Label]"), "[Label](https://example.com)");
    assert_eq!(convert("[img https://x.org/a.png]"), "![img](https://x.org/a.png)");
    assert_eq!(convert("[https://x.org/a.PNG]"), "![](https://x.org/a.PNG)");
    assert_eq!(convert("[https://x.org/page]"), "<https://x.org/page>");
    assert_eq!(
        convert("[YouTube https://www.youtube.com/watch?v=abc]"),
        "[YouTube Video](https://www.youtube.com/watch?v=abc)"
    );
    assert_eq!(
        convert("[Twitter https://twitter.com/u/status/1]"),
        "[Twitter Post](https://twitter.com/u/status/1)"
    );
}

#[test]
fn invalid_label_is_left_alone() {
    assert_eq!(convert("[a-b https://x.org]"), "[a-b https://x.org]");
}

#[test]
fn tags_and_unknown_spans() {
    assert_eq!(convert("see [tag]"), "see #tag");
    assert_eq!(convert("[foo-bar]"), "[foo-bar]");
    assert_eq!(convert("[]"), "[]");
    assert_eq!(convert("[open"), "[open");
}

#[test]
fn markdown_link_is_kept() {
    assert_eq!(convert("[label](https://x.org)"), "[label](https://x.org)");
}

#[test]
fn bare_urls_become_autolinks() {
    assert_eq!(convert("see https://a.com now"), "see <https://a.com> now");
    assert_eq!(convert("<https://a.com>"), "<https://a.com>");
    assert_eq!(convert("x (https://a.com)"), "x (https://a.com)");
    assert_eq!(convert("http://a.b http://c.d"), "<http://a.b> <http://c.d>");
    assert_eq!(convert("https:// x"), "https:// x");
}

#[test]
fn whitespace_only_indented_line_terminates() {
    assert_eq!(convert(" \u{2003}"), "");
    assert_eq!(convert("a\n \u{2003}\nb"), "a\n\nb");
}

#[test]
fn blank_lines_are_kept_inside_and_trimmed_outside() {
    assert_eq!(convert("\n\na\n\nb\n\n"), "a\n\nb");
    assert_eq!(convert(""), "");
}

#[test]
fn crlf_line_endings() {
    assert_eq!(convert("a\r\nb"), "a\nb");
}

#[test]
fn plain_words_are_preserved() {
    assert_eq!(convert("hello world 42"), "hello world 42");
    assert_eq!(convert("a"), "a");
}

#[test]
fn plain_multiline_is_preserved() {
    assert_eq!(convert("abc def\nghi\nj k l"), "abc def\nghi\nj k l");
}

#[test]
fn detection_heuristic() {
    assert!(looks_like_cosense("[* Title]"));
    assert!(looks_like_cosense("text\n  code:py"));
    assert!(looks_like_cosense("table:t"));
    assert!(looks_like_cosense("[img https://x.org/a.png]"));
    assert!(looks_like_cosense("[- gone]"));
    assert!(!looks_like_cosense("plain text\n# markdown"));
    assert!(!looks_like_cosense(""));
}

#[test]
fn inline_nodes() {
    let nodes = parse_inline("a [tag] https://x.org [** b]");
    assert_eq!(
        nodes,
        vec![
            Inline::Text("a ".to_string()),
            Inline::Tag("tag".to_string()),
            Inline::Text(" ".to_string()),
            Inline::AutoLink("https://x.org".to_string()),
            Inline::Text(" ".to_string()),
            Inline::Emphasis(Emphasis {
                bold: true,
                italic: false,
                strike: false,
                text: "b".to_string()
            }),
        ]
    );
    assert_eq!(parse_inline(""), vec![]);
    assert_eq!(parse_inline("[x y]"), vec![Inline::Unknown("[x y]".to_string())]);
}

#[test]
fn parse_blocks() {
    let doc = parse("[* T]\npara\n one\n  two\n\ntable:x\n a");
    assert_eq!(
        doc,
        Document {
            blocks: vec![
                Block::Heading { level: 1, text: "T".to_string() },
                Block::Paragraph { text: "para".to_string() },
                Block::BulletList {
                    items: vec![
                        ListItem { level: 0, text: "one".to_string() },
                        ListItem { level: 1, text: "two".to_string() },
                    ]
                },
                Block::BlankLine,
                Block::Table { title: Some("x".to_string()), header: vec!["a".to_string()], rows: vec![] },
            ]
        }
    );
}

#[test]
fn render_document() {
    let doc = Document {
        blocks: vec![
            Block::Code {
                language: "rs".to_string(),
                lines: vec!["x".to_string()],
                indent: "  ".to_string(),
            },
            Block::Math { lines: vec![], indent: String::new() },
            Block::BlankLine,
        ],
    };
    assert_eq!(render_markdown(&doc), "  ```rs\n  x\n  ```\n$$\n$$");
}

#[test]
fn indented_heading_bracket_is_a_bold_list_item() {
    assert_eq!(convert(" [* x]"), "- **x**");
}

#[test]
fn code_block_inside_a_list_keeps_its_indent() {
    assert_eq!(convert(" code:py\n  x"), " ```py\n x\n ```");
}

#[test]
fn literal_runs_lose_nothing() {
    for text in ["x https://a.b y", "(http://q.r) <https://s.t> u", "plain"] {
        let joined: String = parse_inline(text)
            .into_iter()
            .map(|n| match n {
                Inline::Text(t) => t,
                Inline::AutoLink(u) => u,
                other => panic!("unexpected node {:?}", other),
            })
            .collect();
        assert_eq!(joined, text);
    }
}

#[test]
fn list_levels_never_jump() {
    let doc = parse("    a\n b\n     c\n  d");
    match &doc.blocks[0] {
        Block::BulletList { items } => {
            let levels: Vec<usize> = items.iter().map(|i| i.level).collect();
            assert_eq!(levels, vec![0, 0, 1, 1]);
        }
        other => panic!("unexpected block {:?}", other),
    }
}
