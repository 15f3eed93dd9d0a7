use aio_core::executor::CodeBlock;
use aio_core::executor::Executor;

#[test]
fn code_block_new_is_empty() {
    let b = CodeBlock::new("rust".to_string());
    assert_eq!(b.language, "rust");
    assert_eq!(b.code, "");
}

#[test]
fn collects_block_at_every_split_point() {
    // A complete fenced block fed across arbitrary chunk splits yields
    // exactly one block, with the trailing line break stripped.
    let text = "```python\nprint(1)\n```";
    for i in 0..=text.len() {
        let mut ex = Executor::new();
        ex.push(&text[..i]);
        ex.push(&text[i..]);
        ex.finish();
        let blocks = ex.blocks();
        assert_eq!(blocks.len(), 1, "split at {}", i);
        assert_eq!(blocks[0].language, "python", "split at {}", i);
        assert_eq!(blocks[0].code, "print(1)", "split at {}", i);
    }
}

#[test]
fn language_tag_is_trimmed() {
    let mut ex = Executor::new();
    ex.push("```  rust  \nlet x = 1;\n```\n");
    ex.finish();
    assert_eq!(ex.blocks()[0].language, "rust");
    assert_eq!(ex.blocks()[0].code, "let x = 1;");
}

#[test]
fn backticks_inside_code_are_kept() {
    let mut ex = Executor::new();
    ex.push("```\na `x` b\n```\n");
    ex.finish();
    assert_eq!(ex.blocks()[0].code, "a `x` b");
}

#[test]
fn collects_two_blocks_in_order() {
    let mut ex = Executor::new();
    ex.push("```a\none\n```\nprose\n```b\ntwo\n```\n");
    ex.finish();
    let blocks = ex.blocks();
    assert_eq!(blocks.len(), 2);
    assert_eq!(blocks[0].language, "a");
    assert_eq!(blocks[0].code, "one");
    assert_eq!(blocks[1].language, "b");
    assert_eq!(blocks[1].code, "two");
}

#[test]
fn unclosed_block_is_not_collected() {
    let mut ex = Executor::new();
    ex.push("```py\nabc");
    ex.finish();
    assert!(ex.blocks().is_empty());
}

#[test]
fn prose_without_fences_collects_nothing() {
    let mut ex = Executor::new();
    ex.push("just some text\nwith lines\n");
    ex.finish();
    assert!(ex.blocks().is_empty());
}
