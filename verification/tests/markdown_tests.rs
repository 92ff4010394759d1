use shzgptr_gui::markdown::parse_markdown;
use shzgptr_gui::markdown::Block;
use shzgptr_gui::markdown::BlockType;

fn text_block(b: &Block) -> Option<&str> {
    match &b.block_type {
        BlockType::Text => Some(b.content.as_str()),
        _ => None,
    }
}

fn code_block(b: &Block) -> Option<(&str, &str)> {
    match &b.block_type {
        BlockType::Code(lang) => Some((lang.as_str(), b.content.as_str())),
        _ => None,
    }
}

fn heading_block(b: &Block) -> Option<(i32, &str)> {
    match &b.block_type {
        BlockType::Heading(level) => Some((*level, b.content.as_str())),
        _ => None,
    }
}

#[test]
fn test_parse_markdown() {
    let input = r#"
        Here is a python hello world program:

        ```python
        print("Hello, World!")
        ```

        Happy coding!
        "#;

    let blocks = parse_markdown(input);

    // There should be 3 blocks
    assert_eq!(blocks.len(), 3);

    // The 2nd block should be a code block with language "python"
    assert!(matches!(&blocks[1].block_type, BlockType::Code(lang) if lang == "python"));
}

#[test]
fn intro_code_outro() {
    let blocks = parse_markdown("Intro line\n\n```python\nprint(1)\n```\n\nOutro line\n");
    assert_eq!(blocks.len(), 3);
    assert_eq!(text_block(&blocks[0]), Some("Intro line"));
    assert_eq!(code_block(&blocks[1]), Some(("python", "print(1)")));
    assert_eq!(text_block(&blocks[2]), Some("Outro line"));
}

#[test]
fn heading_then_text() {
    let blocks = parse_markdown("## Title\nBody text\n");
    assert_eq!(blocks.len(), 2);
    assert_eq!(heading_block(&blocks[0]), Some((2, "Title")));
    assert_eq!(text_block(&blocks[1]), Some("Body text"));
}

#[test]
fn unterminated_fence_flushes_code() {
    let blocks = parse_markdown("```rust\nfn main() {}\n");
    assert_eq!(blocks.len(), 1);
    assert_eq!(code_block(&blocks[0]), Some(("rust", "fn main() {}")));
}

#[test]
fn blank_lines_only_yield_nothing() {
    assert!(parse_markdown("").is_empty());
    assert!(parse_markdown("\n").is_empty());
    assert!(parse_markdown("\n\n\n").is_empty());
}

#[test]
fn plain_text_is_one_block() {
    let blocks = parse_markdown("first line\nsecond line\nthird line");
    assert_eq!(blocks.len(), 1);
    assert_eq!(text_block(&blocks[0]), Some("first line\nsecond line\nthird line"));
}

#[test]
fn single_fenced_block_keeps_body() {
    let blocks = parse_markdown("```rust\nlet x = 1;\n\nlet y = 2;\n```\n");
    assert_eq!(blocks.len(), 1);
    assert_eq!(code_block(&blocks[0]), Some(("rust", "let x = 1;\n\nlet y = 2;")));
}

#[test]
fn segmenting_is_deterministic() {
    let input = "# head\n\nsome text\n\n```c\nint x;\n```\ntail\n";
    let first = parse_markdown(input);
    let second = parse_markdown(input);
    assert_eq!(first, second);
}

#[test]
fn heading_blocks_match_hash_lines() {
    let input = "# a\nx\n## b\n```\n# inside\n```\n";
    let blocks = parse_markdown(input);
    let headings = blocks
        .iter()
        .filter(|b| matches!(b.block_type, BlockType::Heading(_)))
        .count();
    let hash_lines = input.lines().filter(|l| l.starts_with('#')).count();
    assert_eq!(headings, hash_lines);
    assert_eq!(headings, 3);
}

#[test]
fn heading_fires_inside_open_fence() {
    let blocks = parse_markdown("```python\n# looks like a comment\nprint(1)\n```\n");
    assert_eq!(blocks.len(), 2);
    assert_eq!(heading_block(&blocks[0]), Some((1, "looks like a comment")));
    assert_eq!(code_block(&blocks[1]), Some(("python", "print(1)")));
}

#[test]
fn fence_without_tag_has_empty_language() {
    let blocks = parse_markdown("```\nplain code\n```\n");
    assert_eq!(blocks.len(), 1);
    assert_eq!(code_block(&blocks[0]), Some(("", "plain code")));
}

#[test]
fn heading_level_counts_every_hash() {
    let blocks = parse_markdown("##### five\n");
    assert_eq!(blocks.len(), 1);
    assert_eq!(heading_block(&blocks[0]), Some((5, "five")));
}

#[test]
fn heading_content_strips_hashes_then_whitespace() {
    let blocks = parse_markdown("##   spaced   \n");
    assert_eq!(blocks.len(), 1);
    assert_eq!(heading_block(&blocks[0]), Some((2, "spaced")));
}

#[test]
fn heading_keeps_inner_hashes() {
    let blocks = parse_markdown("# a # b\n");
    assert_eq!(blocks.len(), 1);
    assert_eq!(heading_block(&blocks[0]), Some((1, "a # b")));
}

#[test]
fn indented_fence_still_toggles() {
    let blocks = parse_markdown("   ```python   \nx = 1\n   ```\n");
    assert_eq!(blocks.len(), 1);
    assert_eq!(code_block(&blocks[0]), Some(("python", "x = 1")));
}

#[test]
fn trailing_text_without_newline_is_kept() {
    let blocks = parse_markdown("no newline at end");
    assert_eq!(blocks.len(), 1);
    assert_eq!(text_block(&blocks[0]), Some("no newline at end"));
}

#[test]
fn code_preserves_indentation() {
    let blocks = parse_markdown("```py\nif x:\n    y()\n```\n");
    assert_eq!(blocks.len(), 1);
    assert_eq!(code_block(&blocks[0]), Some(("py", "if x:\n    y()")));
}
