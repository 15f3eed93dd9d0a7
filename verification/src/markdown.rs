//! Incremental markdown tokenizing: characters arrive in fragments and
//! display tokens are emitted as soon as they are unambiguously determined,
//! with no lookahead beyond the next character except where a lexeme is
//! only decided at a line boundary.
//!
//! Line-start runs of three or more backticks toggle the code fence; the
//! rest of an opening fence line, trimmed, is the language tag.  Inside a
//! fence every character is verbatim text.  A line-start run of `#`
//! followed by a space opens a header that the line break closes.  Runs of
//! `*` toggle italic (one) or bold (two); longer or trailing runs are
//! flushed as literal text.  Style tokens are kept well nested: a marker
//! closes its style only when that style is innermost, and opens it
//! otherwise.

use vstd::prelude::*;

use crate::executor::trim_chars;
use crate::token::Style;
use crate::token::Token;
use crate::token::TokenModel;
use crate::token::chars_to_string;
use crate::token::str_to_chars;
use crate::token::token_views;

verus! {

/// A run of `n` copies of `c`.
pub open spec fn char_run(n: nat, c: char) -> Seq<char> {
    Seq::new(n, |i: int| c)
}

/// A counter step that cannot overflow a machine word.
pub open spec fn sat_inc(n: nat) -> nat {
    if n < usize::MAX {
        n + 1
    } else {
        n
    }
}

/// A backtick-run counter: only zero, one, two and "three or more" are
/// ever distinguished.
pub open spec fn sat3(n: nat) -> nat {
    if n < 3 {
        n + 1
    } else {
        3
    }
}

/// Ghost state of the tokenizer.
#[verifier::ext_equal]
pub struct TokenizerModel {
    /// Inside a code fence.
    pub in_fence: bool,
    /// On a closing fence line, past its backticks.
    pub fence_close: bool,
    /// On an opening fence line, past its backticks.
    pub lang_open: bool,
    /// The language tag collected so far.
    pub lang_buf: Seq<char>,
    /// Pending line-start backtick run, saturated at three.
    pub ticks: nat,
    /// Pending line-start `#` run.
    pub hashes: nat,
    /// Pending `*` run.
    pub stars: nat,
    /// Between a header's start and its line break.
    pub in_header: bool,
    /// At column zero.
    pub line_start: bool,
    /// Open styles, innermost last.
    pub styles: Seq<Style>,
}

/// The tokenizer's initial state.
pub open spec fn tokenizer_init() -> TokenizerModel {
    TokenizerModel {
        in_fence: false,
        fence_close: false,
        lang_open: false,
        lang_buf: Seq::empty(),
        ticks: 0,
        hashes: 0,
        stars: 0,
        in_header: false,
        line_start: true,
        styles: Seq::empty(),
    }
}

/// The pending text as a token, when there is any.
pub open spec fn flush_buf(buf: Seq<char>) -> Seq<TokenModel> {
    if buf.len() > 0 {
        seq![TokenModel::Text(buf)]
    } else {
        Seq::empty()
    }
}

/// Toggling a style: closes it when it is innermost, opens it otherwise,
/// so the emitted style tokens are always well nested.
pub open spec fn toggle(styles: Seq<Style>, s: Style) -> (Seq<Style>, Seq<TokenModel>) {
    if styles.len() > 0 && styles.last() == s {
        (styles.drop_last(), seq![TokenModel::StyleEnd(s)])
    } else {
        (styles.push(s), seq![TokenModel::StyleBegin(s)])
    }
}

/// Resolves a pending `*` run: one toggles italic, two toggle bold, more
/// are literal text.
pub open spec fn resolve_stars(m: TokenizerModel, buf: Seq<char>) -> (
    TokenizerModel,
    Seq<char>,
    Seq<TokenModel>,
) {
    if m.stars == 1 {
        let t = toggle(m.styles, Style::Italic);
        (TokenizerModel { stars: 0, styles: t.0, ..m }, Seq::empty(), flush_buf(buf) + t.1)
    } else if m.stars == 2 {
        let t = toggle(m.styles, Style::Bold);
        (TokenizerModel { stars: 0, styles: t.0, ..m }, Seq::empty(), flush_buf(buf) + t.1)
    } else {
        (TokenizerModel { stars: 0, ..m }, buf + char_run(m.stars, '*'), Seq::empty())
    }
}

/// An ordinary character outside any pending run.
pub open spec fn norm_char(m: TokenizerModel, buf: Seq<char>, c: char) -> (
    TokenizerModel,
    Seq<char>,
    Seq<TokenModel>,
) {
    if c == '\n' {
        if m.in_header {
            (
                TokenizerModel { in_header: false, line_start: true, ..m },
                seq!['\n'],
                flush_buf(buf) + seq![TokenModel::HeaderEnd],
            )
        } else {
            (TokenizerModel { line_start: true, ..m }, buf.push('\n'), Seq::empty())
        }
    } else if c == '*' {
        (TokenizerModel { stars: 1, line_start: false, ..m }, buf, Seq::empty())
    } else if c == '`' && m.line_start {
        (TokenizerModel { ticks: 1, line_start: false, ..m }, buf, Seq::empty())
    } else if c == '#' && m.line_start {
        (TokenizerModel { hashes: 1, line_start: false, ..m }, buf, Seq::empty())
    } else {
        (TokenizerModel { line_start: false, ..m }, buf.push(c), Seq::empty())
    }
}

/// One character of tokenizing: the next state, the pending text, and the
/// tokens emitted for this character.
pub open spec fn tok_step(m: TokenizerModel, buf: Seq<char>, c: char) -> (
    TokenizerModel,
    Seq<char>,
    Seq<TokenModel>,
) {
    if m.in_fence {
        if m.fence_close {
            if c == '\n' {
                (
                    TokenizerModel { in_fence: false, fence_close: false, line_start: true, ..m },
                    Seq::empty(),
                    flush_buf(buf) + seq![TokenModel::CodeFenceEnd],
                )
            } else {
                (m, buf, Seq::empty())
            }
        } else if m.ticks > 0 {
            if c == '`' {
                (TokenizerModel { ticks: sat3(m.ticks), ..m }, buf, Seq::empty())
            } else if m.ticks >= 3 {
                if c == '\n' {
                    (
                        TokenizerModel { in_fence: false, ticks: 0, line_start: true, ..m },
                        Seq::empty(),
                        flush_buf(buf) + seq![TokenModel::CodeFenceEnd],
                    )
                } else {
                    (TokenizerModel { ticks: 0, fence_close: true, ..m }, buf, Seq::empty())
                }
            } else {
                (
                    TokenizerModel { ticks: 0, line_start: c == '\n', ..m },
                    buf + char_run(m.ticks, '`').push(c),
                    Seq::empty(),
                )
            }
        } else if c == '`' && m.line_start {
            (TokenizerModel { ticks: 1, line_start: false, ..m }, buf, Seq::empty())
        } else {
            (TokenizerModel { line_start: c == '\n', ..m }, buf.push(c), Seq::empty())
        }
    } else if m.lang_open {
        if c == '\n' {
            (
                TokenizerModel {
                    lang_open: false,
                    lang_buf: Seq::empty(),
                    in_fence: true,
                    line_start: true,
                    ..m
                },
                Seq::empty(),
                flush_buf(buf) + seq![TokenModel::CodeFenceStart(trim_chars(m.lang_buf))],
            )
        } else {
            (TokenizerModel { lang_buf: m.lang_buf.push(c), ..m }, buf, Seq::empty())
        }
    } else if m.ticks > 0 {
        if c == '`' {
            (TokenizerModel { ticks: sat3(m.ticks), ..m }, buf, Seq::empty())
        } else if m.ticks >= 3 {
            if c == '\n' {
                (
                    TokenizerModel { ticks: 0, in_fence: true, line_start: true, ..m },
                    Seq::empty(),
                    flush_buf(buf) + seq![TokenModel::CodeFenceStart(Seq::empty())],
                )
            } else {
                (
                    TokenizerModel { ticks: 0, lang_open: true, lang_buf: seq![c], ..m },
                    buf,
                    Seq::empty(),
                )
            }
        } else {
            norm_char(TokenizerModel { ticks: 0, ..m }, buf + char_run(m.ticks, '`'), c)
        }
    } else if m.hashes > 0 {
        if c == '#' {
            (TokenizerModel { hashes: sat_inc(m.hashes), ..m }, buf, Seq::empty())
        } else if c == ' ' {
            (
                TokenizerModel { hashes: 0, in_header: true, line_start: false, ..m },
                Seq::empty(),
                flush_buf(buf) + seq![TokenModel::HeaderStart(m.hashes)],
            )
        } else {
            norm_char(TokenizerModel { hashes: 0, ..m }, buf + char_run(m.hashes, '#'), c)
        }
    } else if m.stars > 0 {
        if c == '*' {
            (TokenizerModel { stars: sat_inc(m.stars), ..m }, buf, Seq::empty())
        } else {
            let resolved = resolve_stars(m, buf);
            let after = norm_char(resolved.0, resolved.1, c);
            (after.0, after.1, resolved.2 + after.2)
        }
    } else {
        norm_char(m, buf, c)
    }
}

/// Tokenizing over a whole fragment.
pub open spec fn tok_fold(m: TokenizerModel, buf: Seq<char>, t: Seq<char>) -> (
    TokenizerModel,
    Seq<char>,
    Seq<TokenModel>,
)
    decreases t.len(),
{
    if t.len() == 0 {
        (m, buf, Seq::empty())
    } else {
        let first = tok_step(m, buf, t[0]);
        let rest = tok_fold(first.0, first.1, t.drop_first());
        (rest.0, rest.1, first.2 + rest.2)
    }
}

/// What one `push` call emits: the fold's tokens, then the remaining
/// unambiguous text as one token.
pub open spec fn tok_push(m: TokenizerModel, t: Seq<char>) -> (TokenizerModel, Seq<TokenModel>) {
    let f = tok_fold(m, Seq::empty(), t);
    (f.0, f.2 + flush_buf(f.1))
}

/// The tokens emitted at end of input: a pending fence line still takes
/// effect at this final line boundary, other pending markers are flushed
/// as literal text, and an open header is closed.
pub open spec fn tok_finish(m: TokenizerModel) -> Seq<TokenModel> {
    if m.in_fence {
        if m.fence_close || m.ticks >= 3 {
            seq![TokenModel::CodeFenceEnd]
        } else {
            flush_buf(char_run(m.ticks, '`'))
        }
    } else if m.lang_open {
        seq![TokenModel::CodeFenceStart(trim_chars(m.lang_buf))]
    } else if m.ticks >= 3 {
        seq![TokenModel::CodeFenceStart(Seq::empty())]
    } else {
        let literal = char_run(m.ticks, '`') + char_run(m.hashes, '#') + char_run(m.stars, '*');
        if m.in_header {
            flush_buf(literal) + seq![TokenModel::HeaderEnd]
        } else {
            flush_buf(literal)
        }
    }
}

/// Folding splits over concatenation.
pub proof fn lemma_tok_fold_append(m: TokenizerModel, buf: Seq<char>, a: Seq<char>, b: Seq<char>)
    ensures
        tok_fold(m, buf, a + b) == {
            let fa = tok_fold(m, buf, a);
            let fb = tok_fold(fa.0, fa.1, b);
            (fb.0, fb.1, fa.2 + fb.2)
        },
    decreases a.len(),
{
    if a.len() == 0 {
        assert(a + b =~= b);
        let fb = tok_fold(m, buf, b);
        assert(Seq::<TokenModel>::empty() + fb.2 =~= fb.2);
        assert(tok_fold(m, buf, a + b) =~= (fb.0, fb.1, tok_fold(m, buf, a).2 + fb.2));
    } else {
        assert((a + b).drop_first() =~= a.drop_first() + b);
        let first = tok_step(m, buf, a[0]);
        lemma_tok_fold_append(first.0, first.1, a.drop_first(), b);
        let fa = tok_fold(m, buf, a);
        let fb = tok_fold(fa.0, fa.1, b);
        assert(first.2 + (tok_fold(first.0, first.1, a.drop_first()).2 + fb.2) =~= fa.2 + fb.2);
    }
}

/// Folding one more character is one step.
pub proof fn lemma_tok_fold_push(m: TokenizerModel, buf: Seq<char>, s: Seq<char>, c: char)
    ensures
        tok_fold(m, buf, s.push(c)) == {
            let f = tok_fold(m, buf, s);
            let st = tok_step(f.0, f.1, c);
            (st.0, st.1, f.2 + st.2)
        },
{
    assert(s.push(c) =~= s + seq![c]);
    lemma_tok_fold_append(m, buf, s, seq![c]);
    let f = tok_fold(m, buf, s);
    let st = tok_step(f.0, f.1, c);
    assert(seq![c][0] == c);
    assert(seq![c].drop_first() =~= Seq::<char>::empty());
    assert(tok_fold(st.0, st.1, Seq::<char>::empty()).2 =~= Seq::<TokenModel>::empty());
    assert(st.2 + Seq::<TokenModel>::empty() =~= st.2);
}

/// The character plays no markdown role.
pub open spec fn no_markup(t: Seq<char>) -> bool {
    forall|i: int|
        0 <= i < t.len() ==> #[trigger] t[i] != '`' && t[i] != '#' && t[i] != '*' && t[i] != '\n'
}

/// No marker is pending and no structure is open.
pub open spec fn quiescent(m: TokenizerModel) -> bool {
    &&& !m.in_fence
    &&& !m.fence_close
    &&& !m.lang_open
    &&& m.ticks == 0
    &&& m.hashes == 0
    &&& m.stars == 0
    &&& !m.in_header
}

/// Text with no markup passes through a quiescent tokenizer unchanged and
/// emits nothing until the flush.
proof fn lemma_plain_fold(m: TokenizerModel, buf: Seq<char>, t: Seq<char>)
    requires
        quiescent(m),
        no_markup(t),
    ensures
        tok_fold(m, buf, t) == (
            if t.len() == 0 {
                m
            } else {
                TokenizerModel { line_start: false, ..m }
            },
            buf + t,
            Seq::<TokenModel>::empty(),
        ),
    decreases t.len(),
{
    if t.len() == 0 {
        assert(buf + t =~= buf);
    } else {
        assert(t[0] != '`' && t[0] != '#' && t[0] != '*' && t[0] != '\n');
        let first = tok_step(m, buf, t[0]);
        assert(first.0 == TokenizerModel { line_start: false, ..m });
        assert(first.1 == buf.push(t[0]));
        assert(no_markup(t.drop_first())) by {
            assert(forall|i: int|
                0 <= i < t.drop_first().len() ==> #[trigger] t.drop_first()[i] == t[i + 1]);
        }
        lemma_plain_fold(first.0, first.1, t.drop_first());
        assert(buf.push(t[0]) + t.drop_first() =~= buf + t);
        if t.len() == 1 {
            assert(t.drop_first().len() == 0);
        }
        assert(first.2 + tok_fold(first.0, first.1, t.drop_first()).2
            =~= Seq::<TokenModel>::empty());
    }
}

/// Plain text with no markup is reproduced unchanged as one text token:
/// tokenizing is the identity on non-markdown input.
pub proof fn lemma_plain_round_trip(t: Seq<char>)
    requires
        no_markup(t),
        1 <= t.len(),
    ensures
        tok_push(tokenizer_init(), t).1 == seq![TokenModel::Text(t)],
        tok_push(tokenizer_init(), t).0 == (TokenizerModel {
            line_start: false,
            ..tokenizer_init()
        }),
{
    lemma_plain_fold(tokenizer_init(), Seq::empty(), t);
    assert(Seq::<char>::empty() + t =~= t);
    assert(Seq::<TokenModel>::empty() + flush_buf(t) =~= seq![TokenModel::Text(t)]);
}

/// The incremental tokenizer.
pub struct MarkdownTokenizer {
    in_fence: bool,
    fence_close: bool,
    lang_open: bool,
    lang_buf: Vec<char>,
    ticks: usize,
    hashes: usize,
    stars: usize,
    in_header: bool,
    line_start: bool,
    styles: Vec<Style>,
}

impl View for MarkdownTokenizer {
    type V = TokenizerModel;

    closed spec fn view(&self) -> TokenizerModel {
        TokenizerModel {
            in_fence: self.in_fence,
            fence_close: self.fence_close,
            lang_open: self.lang_open,
            lang_buf: self.lang_buf@,
            ticks: self.ticks as nat,
            hashes: self.hashes as nat,
            stars: self.stars as nat,
            in_header: self.in_header,
            line_start: self.line_start,
            styles: self.styles@,
        }
    }
}

/// Appends `n` copies of `c`.
fn append_run(buf: &mut Vec<char>, n: usize, c: char)
    ensures
        final(buf)@ == old(buf)@ + char_run(n as nat, c),
{
    let mut i: usize = 0;
    while i < n
        invariant
            0 <= i <= n,
            buf@ == old(buf)@ + char_run(i as nat, c),
        decreases n - i,
    {
        buf.push(c);
        i += 1;
        proof {
            assert(buf@ =~= old(buf)@ + char_run(i as nat, c));
        }
    }
    proof {
        assert(buf@ =~= old(buf)@ + char_run(n as nat, c));
    }
}

/// Emits the pending text as one token.
fn flush_emit(buf: &mut Vec<char>, out: &mut Vec<Token>)
    ensures
        final(buf)@ == Seq::<char>::empty(),
        token_views(final(out)@) == token_views(old(out)@) + flush_buf(old(buf)@),
{
    if buf.len() > 0 {
        let s = chars_to_string(buf);
        out.push(Token::Text(s));
        buf.clear();
        proof {
            assert(token_views(final(out)@) =~= token_views(old(out)@) + flush_buf(old(buf)@));
        }
    } else {
        proof {
            assert(token_views(final(out)@) =~= token_views(old(out)@) + flush_buf(old(buf)@));
        }
    }
}

/// Emits one structural token.
fn emit(out: &mut Vec<Token>, t: Token)
    ensures
        token_views(final(out)@) == token_views(old(out)@).push(t@),
{
    out.push(t);
    proof {
        assert(token_views(final(out)@) =~= token_views(old(out)@).push(t@));
    }
}

impl MarkdownTokenizer {
    /// A fresh tokenizer, at a line start.
    pub fn new() -> (r: Self)
        ensures
            r@ == tokenizer_init(),
    {
        let r = MarkdownTokenizer {
            in_fence: false,
            fence_close: false,
            lang_open: false,
            lang_buf: Vec::new(),
            ticks: 0,
            hashes: 0,
            stars: 0,
            in_header: false,
            line_start: true,
            styles: Vec::new(),
        };
        proof {
            assert(r@ =~= tokenizer_init());
        }
        r
    }

    /// Toggles a style and emits its token.
    fn toggle_exec(&mut self, s: Style, out: &mut Vec<Token>)
        ensures
            final(self)@ == (TokenizerModel { styles: toggle(old(self)@.styles, s).0, ..old(
                self,
            )@ }),
            token_views(final(out)@) == token_views(old(out)@) + toggle(old(self)@.styles, s).1,
    {
        let matched = if self.styles.len() > 0 {
            let top = self.styles[self.styles.len() - 1];
            top == s
        } else {
            false
        };
        if matched {
            self.styles.pop();
            emit(out, Token::StyleEnd(s));
            proof {
                assert(final(self)@ =~= (TokenizerModel {
                    styles: toggle(old(self)@.styles, s).0,
                    ..old(self)@
                }));
                assert(token_views(final(out)@) =~= token_views(old(out)@) + toggle(
                    old(self)@.styles,
                    s,
                ).1);
            }
        } else {
            self.styles.push(s);
            emit(out, Token::StyleBegin(s));
            proof {
                assert(final(self)@ =~= (TokenizerModel {
                    styles: toggle(old(self)@.styles, s).0,
                    ..old(self)@
                }));
                assert(token_views(final(out)@) =~= token_views(old(out)@) + toggle(
                    old(self)@.styles,
                    s,
                ).1);
            }
        }
    }

    /// One ordinary character; mirrors `norm_char`.
    fn norm_exec(&mut self, buf: &mut Vec<char>, out: &mut Vec<Token>, c: char)
        ensures
            ({
                let stepped = norm_char(old(self)@, old(buf)@, c);
                &&& final(self)@ == stepped.0
                &&& final(buf)@ == stepped.1
                &&& token_views(final(out)@) == token_views(old(out)@) + stepped.2
            }),
    {
        if c == '\n' {
            if self.in_header {
                flush_emit(buf, out);
                emit(out, Token::HeaderEnd);
                self.in_header = false;
                self.line_start = true;
                buf.push('\n');
                proof {
                    assert(final(buf)@ =~= seq!['\n']);
                    assert(token_views(final(out)@) =~= token_views(old(out)@) + (flush_buf(
                        old(buf)@,
                    ) + seq![TokenModel::HeaderEnd]));
                }
            } else {
                buf.push('\n');
                self.line_start = true;
            }
        } else if c == '*' {
            self.stars = 1;
            self.line_start = false;
        } else if c == '`' && self.line_start {
            self.ticks = 1;
            self.line_start = false;
        } else if c == '#' && self.line_start {
            self.hashes = 1;
            self.line_start = false;
        } else {
            buf.push(c);
            self.line_start = false;
        }
        proof {
            let stepped = norm_char(old(self)@, old(buf)@, c);
            assert(final(self)@ =~= stepped.0);
            assert(token_views(final(out)@) =~= token_views(old(out)@) + stepped.2);
        }
    }

    /// One character inside a fence; mirrors the fence branch of
    /// `tok_step`.
    fn fence_exec(&mut self, buf: &mut Vec<char>, out: &mut Vec<Token>, c: char)
        requires
            old(self)@.in_fence,
        ensures
            ({
                let stepped = tok_step(old(self)@, old(buf)@, c);
                &&& final(self)@ == stepped.0
                &&& final(buf)@ == stepped.1
                &&& token_views(final(out)@) == token_views(old(out)@) + stepped.2
            }),
    {
        if self.fence_close {
            if c == '\n' {
                flush_emit(buf, out);
                emit(out, Token::CodeFenceEnd);
                self.in_fence = false;
                self.fence_close = false;
                self.line_start = true;
            } else {
            }
        } else if self.ticks > 0 {
            if c == '`' {
                if self.ticks < 3 {
                    self.ticks = self.ticks + 1;
                } else {
                    self.ticks = 3;
                }
            } else if self.ticks >= 3 {
                if c == '\n' {
                    flush_emit(buf, out);
                    emit(out, Token::CodeFenceEnd);
                    self.in_fence = false;
                    self.ticks = 0;
                    self.line_start = true;
                } else {
                    self.ticks = 0;
                    self.fence_close = true;
                }
            } else {
                let t = self.ticks;
                append_run(buf, t, '`');
                buf.push(c);
                self.ticks = 0;
                self.line_start = c == '\n';
                proof {
                    assert(final(buf)@ =~= old(buf)@ + char_run(old(self)@.ticks, '`').push(c));
                }
            }
        } else if c == '`' && self.line_start {
            self.ticks = 1;
            self.line_start = false;
        } else {
            buf.push(c);
            self.line_start = c == '\n';
        }
        proof {
            let stepped = tok_step(old(self)@, old(buf)@, c);
            assert(final(self)@ =~= stepped.0);
            assert(token_views(final(out)@) =~= token_views(old(out)@) + stepped.2);
        }
    }

    /// One character of an opening fence line; mirrors the language branch
    /// of `tok_step`.
    fn lang_exec(&mut self, buf: &mut Vec<char>, out: &mut Vec<Token>, c: char)
        requires
            !old(self)@.in_fence,
            old(self)@.lang_open,
        ensures
            ({
                let stepped = tok_step(old(self)@, old(buf)@, c);
                &&& final(self)@ == stepped.0
                &&& final(buf)@ == stepped.1
                &&& token_views(final(out)@) == token_views(old(out)@) + stepped.2
            }),
    {
        if c == '\n' {
            flush_emit(buf, out);
            let lang = crate::executor::trim_vec(&self.lang_buf);
            emit(out, Token::CodeFenceStart(chars_to_string(&lang)));
            self.lang_open = false;
            self.lang_buf = Vec::new();
            self.in_fence = true;
            self.line_start = true;
            proof {
                assert(final(self)@.lang_buf =~= Seq::<char>::empty());
                let stepped = tok_step(old(self)@, old(buf)@, c);
                assert(final(self)@ =~= stepped.0);
                assert(token_views(final(out)@) =~= token_views(old(out)@) + stepped.2);
            }
        } else {
            self.lang_buf.push(c);
        }
    }

    /// One character after a line-start backtick run outside a fence;
    /// mirrors the tick branch of `tok_step`.
    fn ticks_exec(&mut self, buf: &mut Vec<char>, out: &mut Vec<Token>, c: char)
        requires
            !old(self)@.in_fence,
            !old(self)@.lang_open,
            old(self)@.ticks > 0,
        ensures
            ({
                let stepped = tok_step(old(self)@, old(buf)@, c);
                &&& final(self)@ == stepped.0
                &&& final(buf)@ == stepped.1
                &&& token_views(final(out)@) == token_views(old(out)@) + stepped.2
            }),
    {
        if c == '`' {
            if self.ticks < 3 {
                self.ticks = self.ticks + 1;
            } else {
                self.ticks = 3;
            }
        } else if self.ticks >= 3 {
            if c == '\n' {
                flush_emit(buf, out);
                emit(out, Token::CodeFenceStart(String::new()));
                self.ticks = 0;
                self.in_fence = true;
                self.line_start = true;
            } else {
                self.ticks = 0;
                self.lang_open = true;
                let mut lb: Vec<char> = Vec::new();
                lb.push(c);
                self.lang_buf = lb;
                proof {
                    assert(final(self)@.lang_buf =~= seq![c]);
                }
            }
        } else {
            let t = self.ticks;
            append_run(buf, t, '`');
            self.ticks = 0;
            self.norm_exec(buf, out, c);
        }
        proof {
            let stepped = tok_step(old(self)@, old(buf)@, c);
            assert(final(self)@ =~= stepped.0);
            assert(token_views(final(out)@) =~= token_views(old(out)@) + stepped.2);
        }
    }

    /// One character after a line-start `#` run; mirrors the header-marker
    /// branch of `tok_step`.
    fn hash_exec(&mut self, buf: &mut Vec<char>, out: &mut Vec<Token>, c: char)
        requires
            !old(self)@.in_fence,
            !old(self)@.lang_open,
            old(self)@.ticks == 0,
            old(self)@.hashes > 0,
        ensures
            ({
                let stepped = tok_step(old(self)@, old(buf)@, c);
                &&& final(self)@ == stepped.0
                &&& final(buf)@ == stepped.1
                &&& token_views(final(out)@) == token_views(old(out)@) + stepped.2
            }),
    {
        if c == '#' {
            if self.hashes < usize::MAX {
                self.hashes = self.hashes + 1;
            }
        } else if c == ' ' {
            flush_emit(buf, out);
            let level = self.hashes;
            emit(out, Token::HeaderStart(level));
            self.hashes = 0;
            self.in_header = true;
            self.line_start = false;
        } else {
            let h = self.hashes;
            append_run(buf, h, '#');
            self.hashes = 0;
            self.norm_exec(buf, out, c);
        }
        proof {
            let stepped = tok_step(old(self)@, old(buf)@, c);
            assert(final(self)@ =~= stepped.0);
            assert(token_views(final(out)@) =~= token_views(old(out)@) + stepped.2);
        }
    }

    /// One character after a `*` run; mirrors the emphasis branch of
    /// `tok_step`.
    fn star_exec(&mut self, buf: &mut Vec<char>, out: &mut Vec<Token>, c: char)
        requires
            !old(self)@.in_fence,
            !old(self)@.lang_open,
            old(self)@.ticks == 0,
            old(self)@.hashes == 0,
            old(self)@.stars > 0,
        ensures
            ({
                let stepped = tok_step(old(self)@, old(buf)@, c);
                &&& final(self)@ == stepped.0
                &&& final(buf)@ == stepped.1
                &&& token_views(final(out)@) == token_views(old(out)@) + stepped.2
            }),
    {
        if c == '*' {
            if self.stars < usize::MAX {
                self.stars = self.stars + 1;
            }
            proof {
                let stepped = tok_step(old(self)@, old(buf)@, c);
                assert(final(self)@ =~= stepped.0);
                assert(token_views(final(out)@) =~= token_views(old(out)@) + stepped.2);
            }
        } else {
            if self.stars == 1 {
                flush_emit(buf, out);
                self.stars = 0;
                self.toggle_exec(Style::Italic, out);
            } else if self.stars == 2 {
                flush_emit(buf, out);
                self.stars = 0;
                self.toggle_exec(Style::Bold, out);
            } else {
                let st = self.stars;
                append_run(buf, st, '*');
                self.stars = 0;
            }
            proof {
                let resolved = resolve_stars(old(self)@, old(buf)@);
                assert(self@ =~= resolved.0);
                assert(buf@ =~= resolved.1);
                assert(token_views(out@) =~= token_views(old(out)@) + resolved.2);
            }
            self.norm_exec(buf, out, c);
            proof {
                let resolved = resolve_stars(old(self)@, old(buf)@);
                let after = norm_char(resolved.0, resolved.1, c);
                let stepped = tok_step(old(self)@, old(buf)@, c);
                assert(final(self)@ =~= stepped.0);
                assert(token_views(final(out)@) =~= token_views(old(out)@) + (resolved.2
                    + after.2));
                assert(token_views(final(out)@) =~= token_views(old(out)@) + stepped.2);
            }
        }
    }

    /// One character; mirrors `tok_step`.
    fn step_exec(&mut self, buf: &mut Vec<char>, out: &mut Vec<Token>, c: char)
        ensures
            ({
                let stepped = tok_step(old(self)@, old(buf)@, c);
                &&& final(self)@ == stepped.0
                &&& final(buf)@ == stepped.1
                &&& token_views(final(out)@) == token_views(old(out)@) + stepped.2
            }),
    {
        if self.in_fence {
            self.fence_exec(buf, out, c);
        } else if self.lang_open {
            self.lang_exec(buf, out, c);
        } else if self.ticks > 0 {
            self.ticks_exec(buf, out, c);
        } else if self.hashes > 0 {
            self.hash_exec(buf, out, c);
        } else if self.stars > 0 {
            self.star_exec(buf, out, c);
        } else {
            self.norm_exec(buf, out, c);
        }
    }

    /// Tokenizes the next fragment, emitting every token the fragment
    /// determines; its trailing unambiguous text becomes one text token.
    pub fn push(&mut self, text: &str) -> (out: Vec<Token>)
        ensures
            final(self)@ == tok_push(old(self)@, text@).0,
            token_views(out@) == tok_push(old(self)@, text@).1,
    {
        let chars = str_to_chars(text);
        let n = chars.len();
        let mut buf: Vec<char> = Vec::new();
        let mut out: Vec<Token> = Vec::new();
        let mut i: usize = 0;
        proof {
            assert(token_views(out@) =~= Seq::<TokenModel>::empty());
            assert(buf@ =~= Seq::<char>::empty());
        }
        while i < n
            invariant
                n == chars@.len(),
                chars@ == text@,
                0 <= i <= n,
                ({
                    let f = tok_fold(old(self)@, Seq::empty(), text@.take(i as int));
                    &&& self@ == f.0
                    &&& buf@ == f.1
                    &&& token_views(out@) == f.2
                }),
            decreases n - i,
        {
            proof {
                lemma_tok_fold_push(old(self)@, Seq::empty(), text@.take(i as int), text@[i as int]);
                assert(text@.take(i as int).push(text@[i as int]) =~= text@.take(i + 1 as int));
            }
            self.step_exec(&mut buf, &mut out, chars[i]);
            i += 1;
        }
        proof {
            assert(text@.take(n as int) =~= text@);
        }
        flush_emit(&mut buf, &mut out);
        out
    }

    /// Ends the input: pending fence lines take effect, other pending
    /// markers flush as literal text, an open header closes.  The
    /// tokenizer is reset.
    pub fn finish(&mut self) -> (out: Vec<Token>)
        ensures
            final(self)@ == tokenizer_init(),
            token_views(out@) == tok_finish(old(self)@),
    {
        let mut out: Vec<Token> = Vec::new();
        let mut buf: Vec<char> = Vec::new();
        proof {
            assert(token_views(out@) =~= Seq::<TokenModel>::empty());
        }
        if self.in_fence {
            if self.fence_close || self.ticks >= 3 {
                emit(&mut out, Token::CodeFenceEnd);
                proof {
                    assert(token_views(out@) =~= tok_finish(old(self)@));
                }
            } else {
                let t = self.ticks;
                append_run(&mut buf, t, '`');
                proof {
                    assert(buf@ =~= char_run(old(self)@.ticks, '`'));
                }
                flush_emit(&mut buf, &mut out);
                proof {
                    assert(token_views(out@) =~= tok_finish(old(self)@));
                }
            }
        } else if self.lang_open {
            let lang = crate::executor::trim_vec(&self.lang_buf);
            emit(&mut out, Token::CodeFenceStart(chars_to_string(&lang)));
            proof {
                assert(token_views(out@) =~= tok_finish(old(self)@));
            }
        } else if self.ticks >= 3 {
            emit(&mut out, Token::CodeFenceStart(String::new()));
            proof {
                assert(token_views(out@) =~= tok_finish(old(self)@));
            }
        } else {
            let t = self.ticks;
            append_run(&mut buf, t, '`');
            let h = self.hashes;
            append_run(&mut buf, h, '#');
            let st = self.stars;
            append_run(&mut buf, st, '*');
            flush_emit(&mut buf, &mut out);
            if self.in_header {
                emit(&mut out, Token::HeaderEnd);
            }
            proof {
                assert(char_run(old(self)@.ticks, '`') + char_run(old(self)@.hashes, '#')
                    + char_run(old(self)@.stars, '*') =~= Seq::<char>::empty() + char_run(
                    old(self)@.ticks,
                    '`',
                ) + char_run(old(self)@.hashes, '#') + char_run(old(self)@.stars, '*'));
                assert(token_views(out@) =~= tok_finish(old(self)@));
            }
        }
        self.in_fence = false;
        self.fence_close = false;
        self.lang_open = false;
        self.lang_buf = Vec::new();
        self.ticks = 0;
        self.hashes = 0;
        self.stars = 0;
        self.in_header = false;
        self.line_start = true;
        self.styles = Vec::new();
        proof {
            assert(final(self)@ =~= tokenizer_init());
        }
        out
    }
}

} // verus!
