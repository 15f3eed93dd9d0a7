//! Terminal rendering plans: the style stack, header layout and the drawing
//! operations they produce.
//!
//! Nothing here writes to a terminal.  Each drawing step is computed as a
//! list of operations (move, print, set or reset attributes); the
//! executable front end reads the terminal's width and cursor and performs
//! the operations.  Header text is centered against the header's rule
//! width, and the offset is recomputed as more of the header arrives, so a
//! growing header visibly re-flows — deliberately, since its final width
//! cannot be known while it streams.

use vstd::prelude::*;

use vstd::arithmetic::div_mod::lemma_basic_div;
use vstd::arithmetic::div_mod::lemma_div_is_ordered;
use vstd::arithmetic::power2::lemma2_to64;
use vstd::arithmetic::power2::lemma_pow2_pos;
use vstd::arithmetic::power2::lemma_pow2_strictly_increases;
use vstd::arithmetic::power2::pow2;
use vstd::bits::lemma_u16_shr_is_div;

use crate::token::Style;
use crate::token::Token;
use crate::token::TokenModel;

verus! {

/// A terminal text attribute.
#[derive(Clone, Copy, PartialEq, Eq, Structural, Debug)]
pub enum TermStyle {
    Reverse,
    Bold,
    Italic,
}

/// One drawing operation for the terminal.
#[derive(Debug)]
pub enum RenderOp {
    /// Move the cursor to this column of the current row.
    MoveToCol(u16),
    /// Write this text at the cursor.
    Print(String),
    /// Turn this attribute on.
    SetStyle(TermStyle),
    /// Turn all attributes off.
    ResetStyles,
}

/// The attribute an inline style maps to: the static style table.
pub open spec fn term_of_spec(s: Style) -> TermStyle {
    match s {
        Style::Bold => TermStyle::Bold,
        Style::Italic => TermStyle::Italic,
    }
}

/// Maps an inline style to its terminal attribute.
pub fn term_of(s: Style) -> (r: TermStyle)
    ensures
        r == term_of_spec(s),
{
    match s {
        Style::Bold => TermStyle::Bold,
        Style::Italic => TermStyle::Italic,
    }
}

/// Operations that turn on each of `styles`, in order.
pub open spec fn set_ops(styles: Seq<TermStyle>) -> Seq<RenderOp>
    decreases styles.len(),
{
    if styles.len() == 0 {
        Seq::empty()
    } else {
        seq![RenderOp::SetStyle(styles[0])] + set_ops(styles.drop_first())
    }
}

/// The ordered set of currently active terminal attributes: a base that is
/// always on and a stack of inline styles, innermost last.
pub struct InlineStyles {
    base: Vec<TermStyle>,
    stack: Vec<TermStyle>,
}

impl InlineStyles {
    /// The always-on attributes.
    pub closed spec fn base_view(&self) -> Seq<TermStyle> {
        self.base@
    }

    /// The active inline attributes, innermost last.
    pub closed spec fn stack_view(&self) -> Seq<TermStyle> {
        self.stack@
    }

    /// All operations that restore the current attributes from a clean
    /// slate.
    pub open spec fn restore_ops(&self) -> Seq<RenderOp> {
        seq![RenderOp::ResetStyles] + set_ops(self.base_view() + self.stack_view())
    }

    /// Styles with the given always-on base and no inline styles.
    pub fn new(base: Vec<TermStyle>) -> (r: Self)
        ensures
            r.base_view() == base@,
            r.stack_view() == Seq::<TermStyle>::empty(),
    {
        let r = InlineStyles { base, stack: Vec::new() };
        proof {
            assert(r.stack_view() =~= Seq::<TermStyle>::empty());
        }
        r
    }

    /// Operations that turn on each of `styles`, executably.
    fn set_ops_exec(styles: &Vec<TermStyle>) -> (r: Vec<RenderOp>)
        ensures
            r@ == set_ops(styles@),
    {
        let mut r: Vec<RenderOp> = Vec::new();
        let n = styles.len();
        let mut i: usize = 0;
        while i < n
            invariant
                n == styles@.len(),
                0 <= i <= n,
                r@ == set_ops(styles@.take(i as int)),
            decreases n - i,
        {
            r.push(RenderOp::SetStyle(styles[i]));
            i += 1;
            proof {
                lemma_set_ops_push(styles@.take(i - 1), styles@[i - 1]);
                assert(styles@.take(i - 1).push(styles@[i - 1]) =~= styles@.take(i as int));
            }
        }
        proof {
            assert(styles@.take(n as int) =~= styles@);
        }
        r
    }

    /// Operations that apply the current attributes on top of whatever is
    /// set.
    pub fn apply_styles(&self) -> (r: Vec<RenderOp>)
        ensures
            r@ == set_ops(self.base_view() + self.stack_view()),
    {
        let mut all = crate::token::vec_slice_copy(&self.base, 0, self.base.len());
        let mut i: usize = 0;
        let n = self.stack.len();
        while i < n
            invariant
                n == self.stack@.len(),
                0 <= i <= n,
                all@ == self.base@ + self.stack@.take(i as int),
            decreases n - i,
        {
            all.push(self.stack[i]);
            i += 1;
            proof {
                assert(all@ =~= self.base@ + self.stack@.take(i as int));
            }
        }
        proof {
            assert(self.base@.subrange(0, self.base@.len() as int) =~= self.base@ + self.stack@.take(
                0,
            ));
            assert(self.base@ + self.stack@.take(n as int) =~= self.base@ + self.stack@);
        }
        Self::set_ops_exec(&all)
    }

    /// Operations that reset all attributes and re-apply the current ones.
    pub fn reset_styles(&self) -> (r: Vec<RenderOp>)
        ensures
            r@ == self.restore_ops(),
    {
        let mut r: Vec<RenderOp> = Vec::new();
        r.push(RenderOp::ResetStyles);
        let mut rest = self.apply_styles();
        r.append(&mut rest);
        proof {
            assert(r@ =~= seq![RenderOp::ResetStyles] + set_ops(
                self.base_view() + self.stack_view(),
            ));
        }
        r
    }

    /// Pushes an inline style and returns the operation that turns it on.
    pub fn push_style(&mut self, s: TermStyle) -> (r: Vec<RenderOp>)
        ensures
            final(self).base_view() == old(self).base_view(),
            final(self).stack_view() == old(self).stack_view().push(s),
            r@ == seq![RenderOp::SetStyle(s)],
    {
        self.stack.push(s);
        let mut r: Vec<RenderOp> = Vec::new();
        r.push(RenderOp::SetStyle(s));
        proof {
            assert(r@ =~= seq![RenderOp::SetStyle(s)]);
        }
        r
    }

    /// Pops the innermost style if it is `s`, identifying it by value, and
    /// returns the operations that repaint the remaining attributes.  A
    /// non-matching pop changes nothing and reports `false`: the tokens of
    /// a well-nested stream never take that path.
    pub fn pop_style(&mut self, s: TermStyle) -> (r: (Vec<RenderOp>, bool))
        ensures
            final(self).base_view() == old(self).base_view(),
            if old(self).stack_view().len() > 0 && old(self).stack_view().last() == s {
                &&& final(self).stack_view() == old(self).stack_view().drop_last()
                &&& r.1 == true
            } else {
                &&& final(self).stack_view() == old(self).stack_view()
                &&& r.1 == false
            },
            r.0@ == final(self).restore_ops(),
    {
        let matched = if self.stack.len() > 0 {
            let top = self.stack[self.stack.len() - 1];
            top == s
        } else {
            false
        };
        if matched {
            self.stack.pop();
        }
        let ops = self.reset_styles();
        (ops, matched)
    }
}

/// Turning on one more style appends one operation.
proof fn lemma_set_ops_push(styles: Seq<TermStyle>, s: TermStyle)
    ensures
        set_ops(styles.push(s)) == set_ops(styles) + seq![RenderOp::SetStyle(s)],
    decreases styles.len(),
{
    if styles.len() == 0 {
        assert(styles.push(s).drop_first() =~= Seq::<TermStyle>::empty());
        assert(set_ops(Seq::<TermStyle>::empty()) == Seq::<RenderOp>::empty());
        assert(styles.push(s)[0] == s);
        assert(set_ops(styles.push(s)) =~= set_ops(styles) + seq![RenderOp::SetStyle(s)]);
    } else {
        assert(styles.push(s).drop_first() =~= styles.drop_first().push(s));
        lemma_set_ops_push(styles.drop_first(), s);
        assert(styles.push(s)[0] == styles[0]);
        assert(set_ops(styles.push(s)) == seq![RenderOp::SetStyle(styles[0])] + set_ops(
            styles.drop_first().push(s),
        ));
        assert(set_ops(styles.push(s)) =~= set_ops(styles) + seq![RenderOp::SetStyle(s)]);
    }
}

/// The header rule's width: the terminal width halved once per header
/// level past the first.
pub open spec fn header_width_spec(term_width: nat, level: nat) -> nat
    recommends
        1 <= level,
{
    term_width / pow2((level - 1) as nat)
}

/// The left offset that centers text of length `len` in a width of `w`:
/// half the remaining space, never negative.
pub open spec fn center_offset_spec(w: nat, len: nat) -> nat {
    if len >= w {
        0
    } else {
        ((w - len) as nat) / 2
    }
}

/// The centering offset never grows as the text grows, and is never
/// negative: a streamed header only moves left while it is typed.
pub proof fn lemma_center_offset_monotone(w: nat, len1: nat, len2: nat)
    requires
        len1 <= len2,
    ensures
        center_offset_spec(w, len2) <= center_offset_spec(w, len1),
        center_offset_spec(w, len1) >= 0,
{
    if len2 < w {
        lemma_div_is_ordered((w - len2) as int, (w - len1) as int, 2);
    }
}

/// Total length of the text the tokens carry, capped at the largest
/// terminal width.
pub open spec fn texts_len(ts: Seq<TokenModel>) -> nat
    decreases ts.len(),
{
    if ts.len() == 0 {
        0
    } else {
        crate::token::token_text(ts[0]).len() + texts_len(ts.drop_first())
    }
}

/// `texts_len`, capped at `u16::MAX`.
pub open spec fn capped_len(ts: Seq<TokenModel>) -> nat {
    if texts_len(ts) >= 0xffff {
        0xffffnat
    } else {
        texts_len(ts)
    }
}

/// Appending a token adds its text length.
proof fn lemma_texts_len_push(ts: Seq<TokenModel>, t: TokenModel)
    ensures
        texts_len(ts.push(t)) == texts_len(ts) + crate::token::token_text(t).len(),
    decreases ts.len(),
{
    if ts.len() == 0 {
        assert(ts.push(t).drop_first() =~= Seq::<TokenModel>::empty());
        assert(texts_len(Seq::<TokenModel>::empty()) == 0);
        assert(ts.push(t)[0] == t);
    } else {
        assert(ts.push(t).drop_first() =~= ts.drop_first().push(t));
        lemma_texts_len_push(ts.drop_first(), t);
        assert(ts.push(t)[0] == ts[0]);
        assert(texts_len(ts.push(t)) == crate::token::token_text(ts[0]).len() + texts_len(
            ts.drop_first().push(t),
        ));
    }
}

/// Streaming layout state for one header: its level and the tokens of its
/// text so far.
/// The texts printed by a sequence of operations, in order.
pub open spec fn print_texts(ops: Seq<RenderOp>) -> Seq<Seq<char>>
    decreases ops.len(),
{
    if ops.len() == 0 {
        Seq::empty()
    } else {
        match ops[0] {
            RenderOp::Print(s) => seq![s@] + print_texts(ops.drop_first()),
            _ => print_texts(ops.drop_first()),
        }
    }
}

/// The texts the text tokens carry, in order.
pub open spec fn text_items(ts: Seq<TokenModel>) -> Seq<Seq<char>>
    decreases ts.len(),
{
    if ts.len() == 0 {
        Seq::empty()
    } else {
        match ts[0] {
            TokenModel::Text(s) => seq![s] + text_items(ts.drop_first()),
            _ => text_items(ts.drop_first()),
        }
    }
}

/// Printed texts split over concatenation.
proof fn lemma_print_texts_append(a: Seq<RenderOp>, b: Seq<RenderOp>)
    ensures
        print_texts(a + b) == print_texts(a) + print_texts(b),
    decreases a.len(),
{
    if a.len() == 0 {
        assert(a + b =~= b);
        assert(print_texts(a) + print_texts(b) =~= print_texts(b));
    } else {
        assert((a + b).drop_first() =~= a.drop_first() + b);
        lemma_print_texts_append(a.drop_first(), b);
        assert(print_texts(a + b) =~= print_texts(a) + print_texts(b));
    }
}

/// What one operation prints.
proof fn lemma_print_texts_single(op: RenderOp)
    ensures
        print_texts(seq![op]) == (match op {
            RenderOp::Print(t) => seq![t@],
            _ => Seq::<Seq<char>>::empty(),
        }),
{
    assert(seq![op][0] == op);
    assert(seq![op].drop_first() =~= Seq::<RenderOp>::empty());
    assert(print_texts(Seq::<RenderOp>::empty()) =~= Seq::<Seq<char>>::empty());
    match op {
        RenderOp::Print(t) => {
            assert(print_texts(seq![op]) =~= seq![t@]);
        },
        _ => {
            assert(print_texts(seq![op]) =~= Seq::<Seq<char>>::empty());
        },
    }
}

/// Style operations print nothing.
proof fn lemma_set_ops_print_nothing(styles: Seq<TermStyle>)
    ensures
        print_texts(set_ops(styles)) == Seq::<Seq<char>>::empty(),
    decreases styles.len(),
{
    if styles.len() == 0 {
        assert(print_texts(set_ops(styles)) =~= Seq::<Seq<char>>::empty());
    } else {
        lemma_set_ops_print_nothing(styles.drop_first());
        lemma_print_texts_append(seq![RenderOp::SetStyle(styles[0])], set_ops(styles.drop_first()));
        lemma_print_texts_single(RenderOp::SetStyle(styles[0]));
        assert(print_texts(set_ops(styles)) =~= Seq::<Seq<char>>::empty());
    }
}

/// Appending a token appends its text, if it carries one.
proof fn lemma_text_items_push(ts: Seq<TokenModel>, t: TokenModel)
    ensures
        text_items(ts.push(t)) == text_items(ts) + (match t {
            TokenModel::Text(s) => seq![s],
            _ => Seq::<Seq<char>>::empty(),
        }),
    decreases ts.len(),
{
    if ts.len() == 0 {
        assert(ts.push(t).drop_first() =~= Seq::<TokenModel>::empty());
        assert(ts.push(t)[0] == t);
        assert(text_items(Seq::<TokenModel>::empty()) =~= Seq::<Seq<char>>::empty());
        assert(text_items(ts.push(t)) =~= text_items(ts) + (match t {
            TokenModel::Text(s) => seq![s],
            _ => Seq::<Seq<char>>::empty(),
        }));
    } else {
        assert(ts.push(t).drop_first() =~= ts.drop_first().push(t));
        lemma_text_items_push(ts.drop_first(), t);
        assert(ts.push(t)[0] == ts[0]);
        assert(text_items(ts.push(t)) =~= text_items(ts) + (match t {
            TokenModel::Text(s) => seq![s],
            _ => Seq::<Seq<char>>::empty(),
        }));
    }
}

pub struct Header {
    level: usize,
    tokens: Vec<Token>,
    styles: InlineStyles,
}

impl Header {
    /// The header's level.
    pub closed spec fn level_view(&self) -> nat {
        self.level as nat
    }

    /// The header's tokens so far.
    pub closed spec fn tokens_view(&self) -> Seq<TokenModel> {
        self.tokens@.map_values(|t: Token| t@)
    }

    /// The always-on attributes header text is drawn in.
    pub closed spec fn styles_base(&self) -> Seq<TermStyle> {
        self.styles.base_view()
    }

    /// The inline attributes currently open within the header.
    pub closed spec fn styles_stack(&self) -> Seq<TermStyle> {
        self.styles.stack_view()
    }

    pub open spec fn wf(&self) -> bool {
        1 <= self.level_view()
    }

    /// A header of the given level, with the reverse-video and bold
    /// attributes that header text is drawn in.
    pub fn new(level: usize) -> (r: Self)
        requires
            1 <= level,
        ensures
            r.wf(),
            r.level_view() == level as nat,
            r.tokens_view() == Seq::<TokenModel>::empty(),
            r.styles_base() == seq![TermStyle::Reverse, TermStyle::Bold],
            r.styles_stack() == Seq::<TermStyle>::empty(),
    {
        let mut base: Vec<TermStyle> = Vec::new();
        base.push(TermStyle::Reverse);
        base.push(TermStyle::Bold);
        proof {
            assert(base@ =~= seq![TermStyle::Reverse, TermStyle::Bold]);
        }
        let r = Header { level, tokens: Vec::new(), styles: InlineStyles::new(base) };
        proof {
            assert(r.tokens_view() =~= Seq::<TokenModel>::empty());
        }
        r
    }

    /// The rule width for this header on a terminal `term_width` columns
    /// wide.
    pub fn header_width(&self, term_width: u16) -> (r: u16)
        requires
            self.wf(),
        ensures
            r as nat == header_width_spec(term_width as nat, self.level_view()),
    {
        let shift = self.level - 1;
        if shift >= 16 {
            proof {
                lemma2_to64();
                lemma_pow2_pos((self.level - 1) as nat);
                if (self.level - 1) as nat > 16 {
                    lemma_pow2_strictly_increases(16, (self.level - 1) as nat);
                }
                lemma_basic_div(term_width as int, pow2((self.level - 1) as nat) as int);
            }
            0
        } else {
            proof {
                lemma_u16_shr_is_div(term_width, shift as u16);
            }
            term_width >> (shift as u16)
        }
    }

    /// Length of the header text so far, capped at the largest terminal
    /// width.
    pub fn len(&self) -> (r: usize)
        ensures
            r as nat == capped_len(self.tokens_view()),
    {
        let n = self.tokens.len();
        let mut acc: usize = 0;
        let mut i: usize = 0;
        while i < n
            invariant
                n == self.tokens@.len(),
                0 <= i <= n,
                acc as nat == (if texts_len(self.tokens_view().take(i as int)) >= 0xffff {
                    0xffffnat
                } else {
                    texts_len(self.tokens_view().take(i as int))
                }),
                acc <= 0xffff,
            decreases n - i,
        {
            let ghost pre = self.tokens_view().take(i as int);
            let tl = match &self.tokens[i] {
                Token::Text(s) => s.as_str().unicode_len(),
                _ => 0,
            };
            proof {
                lemma_texts_len_push(pre, self.tokens_view()[i as int]);
                assert(pre.push(self.tokens_view()[i as int]) =~= self.tokens_view().take(
                    i + 1 as int,
                ));
            }
            if tl >= 0xffff - acc {
                acc = 0xffff;
            } else {
                acc = acc + tl;
            }
            i += 1;
        }
        proof {
            assert(self.tokens_view().take(n as int) =~= self.tokens_view());
        }
        acc
    }

    /// Operations that start the header: its rule, drawn in the header
    /// attributes, at least `MIN_RULE_WIDTH` columns wide.
    pub fn init(&self, term_width: u16) -> (r: Vec<RenderOp>)
        requires
            self.wf(),
        ensures
            r@.len() >= 1,
            r@.subrange(0, r@.len() - 1) == set_ops(self.styles_base() + self.styles_stack()),
            r@[r@.len() - 1] matches RenderOp::Print(line) && line@.len() == rule_width(
                header_width_spec(term_width as nat, self.level_view()),
            ),
    {
        let mut ops = self.styles.apply_styles();
        let ghost styled = ops@;
        let w = self.header_width(term_width);
        let width = if (w as usize) < MIN_RULE_WIDTH {
            MIN_RULE_WIDTH
        } else {
            w as usize
        };
        let line = repeat_char('-', width);
        ops.push(RenderOp::Print(line));
        proof {
            assert(ops@.subrange(0, ops@.len() - 1) =~= styled);
        }
        ops
    }

    /// Appends a token of header text and returns the operations that
    /// redraw the header's text, centered for its new length.
    pub fn push_token(&mut self, token: Token, term_width: u16) -> (r: Vec<RenderOp>)
        requires
            old(self).wf(),
        ensures
            final(self).wf(),
            final(self).level_view() == old(self).level_view(),
            final(self).tokens_view() == old(self).tokens_view().push(token@),
            r@.len() >= 4,
            r@[0] == RenderOp::MoveToCol(center_offset_spec(
                header_width_spec(term_width as nat, old(self).level_view()),
                capped_len(old(self).tokens_view().push(token@)),
            ) as u16),
            r@.subrange(1, 4) == seq![
                RenderOp::ResetStyles,
                RenderOp::SetStyle(TermStyle::Reverse),
                RenderOp::SetStyle(TermStyle::Bold),
            ],
            print_texts(r@) == text_items(old(self).tokens_view().push(token@)),
    {
        self.tokens.push(token);
        proof {
            assert(final(self).tokens_view() =~= old(self).tokens_view().push(token@));
        }
        self.draw_text(term_width)
    }

    /// Operations that redraw the header text from the line start: move to
    /// the centering offset, reset and re-apply the header attributes,
    /// then replay every accumulated token in order — each text token is
    /// printed exactly once, in its original order.
    fn draw_text(&self, term_width: u16) -> (r: Vec<RenderOp>)
        requires
            self.wf(),
        ensures
            r@.len() >= 4,
            r@[0] == RenderOp::MoveToCol(center_offset_spec(
                header_width_spec(term_width as nat, self.level_view()),
                capped_len(self.tokens_view()),
            ) as u16),
            r@.subrange(1, 4) == seq![
                RenderOp::ResetStyles,
                RenderOp::SetStyle(TermStyle::Reverse),
                RenderOp::SetStyle(TermStyle::Bold),
            ],
            print_texts(r@) == text_items(self.tokens_view()),
    {
        let w = self.header_width(term_width);
        let l = self.len();
        let off: u16 = if l >= w as usize {
            0
        } else {
            ((w as usize - l) / 2) as u16
        };
        let mut ops: Vec<RenderOp> = Vec::new();
        ops.push(RenderOp::MoveToCol(off));
        let mut base: Vec<TermStyle> = Vec::new();
        base.push(TermStyle::Reverse);
        base.push(TermStyle::Bold);
        proof {
            assert(base@ =~= seq![TermStyle::Reverse, TermStyle::Bold]);
        }
        let mut istyles = InlineStyles::new(base);
        let mut reset = istyles.reset_styles();
        ops.append(&mut reset);
        proof {
            let two = seq![TermStyle::Reverse, TermStyle::Bold];
            assert(two.drop_first() =~= seq![TermStyle::Bold]);
            assert(seq![TermStyle::Bold].drop_first() =~= Seq::<TermStyle>::empty());
            assert(set_ops(Seq::<TermStyle>::empty()) =~= Seq::<RenderOp>::empty());
            assert(set_ops(seq![TermStyle::Bold]) =~= seq![RenderOp::SetStyle(TermStyle::Bold)]);
            assert(set_ops(two) =~= seq![
                RenderOp::SetStyle(TermStyle::Reverse),
                RenderOp::SetStyle(TermStyle::Bold),
            ]);
            assert(two + Seq::<TermStyle>::empty() =~= two);
            assert(ops@.subrange(1, 4) =~= seq![
                RenderOp::ResetStyles,
                RenderOp::SetStyle(TermStyle::Reverse),
                RenderOp::SetStyle(TermStyle::Bold),
            ]);
            assert(print_texts(ops@) =~= Seq::<Seq<char>>::empty()) by {
                lemma_print_texts_append(seq![ops@[0]], ops@.drop_first());
                assert(seq![ops@[0]] + ops@.drop_first() =~= ops@);
                assert(ops@.drop_first() =~= seq![RenderOp::ResetStyles] + set_ops(two));
                lemma_print_texts_append(seq![RenderOp::ResetStyles], set_ops(two));
                lemma_set_ops_print_nothing(two);
                lemma_print_texts_single(ops@[0]);
                lemma_print_texts_single(RenderOp::ResetStyles);
            }
        }
        let ghost first = ops@[0];
        let ghost prefix = ops@.subrange(1, 4);
        let n = self.tokens.len();
        let mut i: usize = 0;
        while i < n
            invariant
                n == self.tokens@.len(),
                0 <= i <= n,
                ops@.len() >= 4,
                ops@[0] == first,
                ops@.subrange(1, 4) == prefix,
                print_texts(ops@) == text_items(self.tokens_view().take(i as int)),
            decreases n - i,
        {
            let ghost pre_ops = ops@;
            let ghost emitted: Seq<RenderOp>;
            match &self.tokens[i] {
                Token::Text(s) => {
                    let mut t = String::new();
                    t.append(s.as_str());
                    proof {
                        emitted = seq![RenderOp::Print(t)];
                    }
                    ops.push(RenderOp::Print(t));
                    proof {
                        lemma_print_texts_single(emitted[0]);
                        assert(print_texts(emitted) =~= seq![s@]);
                    }
                },
                Token::StyleBegin(v) => {
                    let mut more = istyles.push_style(term_of(*v));
                    proof {
                        emitted = more@;
                    }
                    ops.append(&mut more);
                    proof {
                        lemma_print_texts_single(emitted[0]);
                        assert(emitted =~= seq![emitted[0]]);
                        assert(print_texts(emitted) =~= Seq::<Seq<char>>::empty());
                    }
                },
                Token::StyleEnd(v) => {
                    let (mut more, _popped) = istyles.pop_style(term_of(*v));
                    proof {
                        emitted = more@;
                    }
                    ops.append(&mut more);
                    proof {
                        assert(print_texts(emitted) =~= Seq::<Seq<char>>::empty()) by {
                            assert(emitted =~= seq![RenderOp::ResetStyles] + set_ops(
                                istyles.base_view() + istyles.stack_view(),
                            ));
                            lemma_print_texts_append(
                                seq![RenderOp::ResetStyles],
                                set_ops(istyles.base_view() + istyles.stack_view()),
                            );
                            lemma_set_ops_print_nothing(
                                istyles.base_view() + istyles.stack_view(),
                            );
                            lemma_print_texts_single(RenderOp::ResetStyles);
                        }
                    }
                },
                _ => {
                    proof {
                        emitted = Seq::<RenderOp>::empty();
                    }
                },
            }
            proof {
                assert(ops@ =~= pre_ops + emitted);
                lemma_print_texts_append(pre_ops, emitted);
                assert(print_texts(Seq::<RenderOp>::empty()) =~= Seq::<Seq<char>>::empty());
                lemma_text_items_push(
                    self.tokens_view().take(i as int),
                    self.tokens_view()[i as int],
                );
                assert(self.tokens_view().take(i as int).push(self.tokens_view()[i as int])
                    =~= self.tokens_view().take(i + 1 as int));
                assert(self.tokens_view()[i as int] == self.tokens@[i as int]@);
                assert(print_texts(ops@) =~= text_items(self.tokens_view().take(i + 1 as int)));
                assert(ops@.subrange(1, 4) =~= prefix);
            }
            i += 1;
        }
        proof {
            assert(self.tokens_view().take(n as int) =~= self.tokens_view());
        }
        ops
    }
}

impl Default for Header {
    /// A first-level header with no text yet.
    fn default() -> (r: Self)
        ensures
            r.wf(),
            r.level_view() == 1,
            r.tokens_view() == Seq::<TokenModel>::empty(),
    {
        Header::new(1)
    }
}

/// The least width a header rule is drawn at.
pub const MIN_RULE_WIDTH: usize = 10;

/// The width a rule is drawn at for a header of width `w`.
pub open spec fn rule_width(w: nat) -> nat {
    if w < MIN_RULE_WIDTH as nat {
        MIN_RULE_WIDTH as nat
    } else {
        w
    }
}

/// The delimiter line drawn when a fence opens, naming its language.
pub fn fence_open_line(width: usize, language: &str) -> (r: String)
    ensures
        r@ == Seq::new(width as nat, |i: int| '-') + " ["@ + language@ + "]\n"@,
{
    let mut v: Vec<char> = Vec::new();
    let mut i: usize = 0;
    while i < width
        invariant
            0 <= i <= width,
            v@ == Seq::new(i as nat, |j: int| '-'),
        decreases width - i,
    {
        v.push('-');
        i += 1;
        proof {
            assert(v@ =~= Seq::new(i as nat, |j: int| '-'));
        }
    }
    v.push(' ');
    v.push('[');
    let mut lang = crate::token::str_to_chars(language);
    v.append(&mut lang);
    v.push(']');
    v.push('\n');
    proof {
        reveal_strlit(" [");
        reveal_strlit("]\n");
        assert(v@ =~= Seq::new(width as nat, |i: int| '-') + " ["@ + language@ + "]\n"@);
    }
    crate::token::chars_to_string(&v)
}

/// The delimiter line drawn when a fence closes.
pub fn fence_close_line(width: usize) -> (r: String)
    ensures
        r@ == Seq::new(width as nat, |i: int| '-') + "\n"@,
{
    let mut v: Vec<char> = Vec::new();
    let mut i: usize = 0;
    while i < width
        invariant
            0 <= i <= width,
            v@ == Seq::new(i as nat, |j: int| '-'),
        decreases width - i,
    {
        v.push('-');
        i += 1;
        proof {
            assert(v@ =~= Seq::new(i as nat, |j: int| '-'));
        }
    }
    v.push('\n');
    proof {
        reveal_strlit("\n");
        assert(v@ =~= Seq::new(width as nat, |i: int| '-') + "\n"@);
    }
    crate::token::chars_to_string(&v)
}

/// A string of `n` copies of `c`.
pub fn repeat_char(c: char, n: usize) -> (r: String)
    ensures
        r@ == Seq::new(n as nat, |i: int| c),
{
    let mut v: Vec<char> = Vec::new();
    let mut i: usize = 0;
    while i < n
        invariant
            0 <= i <= n,
            v@ == Seq::new(i as nat, |j: int| c),
        decreases n - i,
    {
        v.push(c);
        i += 1;
        proof {
            assert(v@ =~= Seq::new(i as nat, |j: int| c));
        }
    }
    crate::token::chars_to_string(&v)
}

} // verus!
