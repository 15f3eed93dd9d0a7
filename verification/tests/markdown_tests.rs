use aio_core::markdown::MarkdownTokenizer;
use aio_core::token::Style;
use aio_core::token::Token;

fn texts(tokens: &[Token]) -> String {
    let mut s = String::new();
    for t in tokens {
        if let Token::Text(v) = t {
            s.push_str(v);
        }
    }
    s
}

#[test]
fn plain_text_single_token() {
    // Tokenizing plain text with no markup reproduces it unchanged as one
    // text token.
    let mut tk = MarkdownTokenizer::new();
    let out = tk.push("hello world, plain text.");
    assert_eq!(out.len(), 1);
    assert!(matches!(&out[0], Token::Text(s) if s == "hello world, plain text."));
    assert!(tk.finish().is_empty());
}

#[test]
fn header_token_sequence() {
    let mut tk = MarkdownTokenizer::new();
    let out = tk.push("# Title");
    assert!(matches!(out[0], Token::HeaderStart(1)));
    assert!(matches!(&out[1], Token::Text(s) if s == "Title"));
    let fin = tk.finish();
    assert!(matches!(fin[0], Token::HeaderEnd));
}

#[test]
fn deeper_header_level() {
    let mut tk = MarkdownTokenizer::new();
    let out = tk.push("### x\n");
    assert!(matches!(out[0], Token::HeaderStart(3)));
}

#[test]
fn hashes_without_space_are_literal() {
    let mut tk = MarkdownTokenizer::new();
    let out = tk.push("##x\n");
    assert_eq!(texts(&out), "##x\n");
}

#[test]
fn italic_and_bold_toggles() {
    let mut tk = MarkdownTokenizer::new();
    let out = tk.push("*i* and **b** .");
    let kinds: Vec<String> = out.iter().map(|t| format!("{:?}", t)).collect();
    assert!(kinds.iter().any(|k| k.contains("StyleBegin(Italic)")));
    assert!(kinds.iter().any(|k| k.contains("StyleEnd(Italic)")));
    assert!(kinds.iter().any(|k| k.contains("StyleBegin(Bold)")));
    assert!(kinds.iter().any(|k| k.contains("StyleEnd(Bold)")));
    assert_eq!(texts(&out), "i and b .");
}

#[test]
fn style_tokens_stay_well_nested() {
    let mut tk = MarkdownTokenizer::new();
    let mut all = tk.push("*a **b* c\n");
    all.extend(tk.finish());
    let mut stack: Vec<Style> = Vec::new();
    for t in &all {
        match t {
            Token::StyleBegin(s) => stack.push(*s),
            Token::StyleEnd(s) => assert_eq!(stack.pop(), Some(*s)),
            _ => {}
        }
    }
}

#[test]
fn trailing_marker_flushed_as_literal() {
    let mut tk = MarkdownTokenizer::new();
    let out = tk.push("tail*");
    assert_eq!(texts(&out), "tail");
    let fin = tk.finish();
    assert_eq!(texts(&fin), "*");
}

#[test]
fn long_star_run_is_literal() {
    let mut tk = MarkdownTokenizer::new();
    let out = tk.push("***x\n");
    assert_eq!(texts(&out), "***x\n");
}

#[test]
fn fence_token_sequence() {
    let mut tk = MarkdownTokenizer::new();
    let out = tk.push("```python\nprint(1)\n```\nafter");
    assert!(matches!(&out[0], Token::CodeFenceStart(l) if l == "python"));
    assert!(matches!(&out[1], Token::Text(s) if s == "print(1)\n"));
    assert!(matches!(out[2], Token::CodeFenceEnd));
    // The line break that closed the fence is consumed, not re-emitted.
    assert!(matches!(&out[3], Token::Text(s) if s == "after"));
}

#[test]
fn fence_suspends_markup() {
    let mut tk = MarkdownTokenizer::new();
    let out = tk.push("```\n# not a header *x*\n```\n");
    assert_eq!(texts(&out), "# not a header *x*\n");
}

#[test]
fn midline_backtick_is_literal() {
    let mut tk = MarkdownTokenizer::new();
    let out = tk.push("a `b` c");
    assert_eq!(out.len(), 1);
    assert_eq!(texts(&out), "a `b` c");
}

#[test]
fn unterminated_fence_marker_at_end() {
    let mut tk = MarkdownTokenizer::new();
    let out = tk.push("text\n```");
    assert_eq!(texts(&out), "text\n");
    let fin = tk.finish();
    assert!(matches!(&fin[0], Token::CodeFenceStart(l) if l.is_empty()));
}
