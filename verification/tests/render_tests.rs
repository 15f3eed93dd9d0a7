use aio_core::render::Header;
use aio_core::render::InlineStyles;
use aio_core::render::RenderOp;
use aio_core::render::TermStyle;
use aio_core::render::repeat_char;
use aio_core::token::Token;

#[test]
fn header_width_halves_per_level() {
    assert_eq!(Header::new(1).header_width(80), 80);
    assert_eq!(Header::new(2).header_width(80), 40);
    assert_eq!(Header::new(3).header_width(80), 20);
    assert_eq!(Header::new(20).header_width(80), 0);
}

#[test]
fn header_offsets_monotone_and_nonnegative() {
    // As header text arrives, the centering offset only moves left.
    let mut h = Header::new(1);
    let mut last: Option<u16> = None;
    for c in "Title".chars() {
        let ops = h.push_token(Token::Text(c.to_string()), 80);
        match ops[0] {
            RenderOp::MoveToCol(off) => {
                if let Some(prev) = last {
                    assert!(off <= prev);
                }
                last = Some(off);
            }
            _ => panic!("expected a cursor move first"),
        }
    }
    assert_eq!(last, Some((80 - 5) / 2));
}

#[test]
fn header_text_longer_than_width_pins_left() {
    let mut h = Header::new(1);
    let ops = h.push_token(Token::Text("0123456789".to_string()), 8);
    assert!(matches!(ops[0], RenderOp::MoveToCol(0)));
}

#[test]
fn header_rule_enforces_minimum_width() {
    let h = Header::new(1);
    let ops = h.init(4);
    match ops.last().unwrap() {
        RenderOp::Print(line) => assert_eq!(line.chars().count(), 10),
        _ => panic!("expected the rule line"),
    }
}

#[test]
fn header_rule_uses_full_width() {
    let h = Header::new(1);
    let ops = h.init(30);
    match ops.last().unwrap() {
        RenderOp::Print(line) => assert_eq!(line.chars().count(), 30),
        _ => panic!("expected the rule line"),
    }
}

#[test]
fn style_stack_pops_by_value() {
    let mut st = InlineStyles::new(vec![TermStyle::Reverse]);
    st.push_style(TermStyle::Bold);
    let (_, popped) = st.pop_style(TermStyle::Italic);
    assert!(!popped);
    let (_, popped2) = st.pop_style(TermStyle::Bold);
    assert!(popped2);
}

#[test]
fn apply_styles_lists_base_then_stack() {
    let mut st = InlineStyles::new(vec![TermStyle::Reverse]);
    st.push_style(TermStyle::Italic);
    let ops = st.apply_styles();
    assert_eq!(ops.len(), 2);
    assert!(matches!(ops[0], RenderOp::SetStyle(TermStyle::Reverse)));
    assert!(matches!(ops[1], RenderOp::SetStyle(TermStyle::Italic)));
}

#[test]
fn repeat_char_builds_line() {
    assert_eq!(repeat_char('-', 4), "----");
    assert_eq!(repeat_char('x', 0), "");
}

#[test]
fn fence_lines_compose() {
    assert_eq!(aio_core::render::fence_open_line(3, "py"), "--- [py]\n");
    assert_eq!(aio_core::render::fence_close_line(2), "--\n");
}
