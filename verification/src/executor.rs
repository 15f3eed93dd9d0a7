//! Code-block collection: a character-at-a-time machine that recognizes
//! fenced code blocks in the streamed text and stores each finished block,
//! so that an external runner can be handed the code after the session.
//!
//! A line whose first characters are three or more backticks toggles the
//! fence state.  On an opening line the rest of the line, trimmed, is the
//! block's language tag.  Inside a fence every character is collected
//! verbatim.  On close, exactly one trailing line break is stripped and the
//! finished block moves to the collected list.

use vstd::prelude::*;

use crate::token::chars_to_string;
use crate::token::str_to_chars;
use crate::token::vec_slice_copy;

verus! {

/// A blank character ignored at the edges of a language tag.
pub open spec fn is_blank(c: char) -> bool {
    c == ' ' || c == '\t'
}

/// `s` without leading blanks.
pub open spec fn trim_front(s: Seq<char>) -> Seq<char>
    decreases s.len(),
{
    if s.len() > 0 && is_blank(s[0]) {
        trim_front(s.drop_first())
    } else {
        s
    }
}

/// `s` without trailing blanks.
pub open spec fn trim_back(s: Seq<char>) -> Seq<char>
    decreases s.len(),
{
    if s.len() > 0 && is_blank(s.last()) {
        trim_back(s.drop_last())
    } else {
        s
    }
}

/// `s` without leading and trailing blanks.
pub open spec fn trim_chars(s: Seq<char>) -> Seq<char> {
    trim_back(trim_front(s))
}

/// Copy of `v` trimmed of leading and trailing blanks.
pub fn trim_vec(v: &Vec<char>) -> (r: Vec<char>)
    ensures
        r@ == trim_chars(v@),
{
    let n = v.len();
    let mut a: usize = 0;
    proof {
        assert(v@.skip(0) =~= v@);
    }
    while a < n && (v[a] == ' ' || v[a] == '\t')
        invariant
            0 <= a <= n,
            n == v@.len(),
            trim_front(v@) == trim_front(v@.skip(a as int)),
        decreases n - a,
    {
        proof {
            assert(v@.skip(a as int).drop_first() =~= v@.skip(a + 1 as int));
        }
        a += 1;
    }
    proof {
        if a < n {
            assert(trim_front(v@.skip(a as int)) == v@.skip(a as int));
        } else {
            assert(v@.skip(a as int) =~= Seq::<char>::empty());
        }
        assert(v@.skip(a as int) =~= v@.subrange(a as int, n as int));
    }
    let mut b: usize = n;
    while b > a && (v[b - 1] == ' ' || v[b - 1] == '\t')
        invariant
            a <= b <= n,
            n == v@.len(),
            trim_front(v@) == v@.subrange(a as int, n as int),
            trim_back(v@.skip(a as int)) == trim_back(v@.subrange(a as int, b as int)),
        decreases b,
    {
        proof {
            assert(v@.subrange(a as int, b as int).drop_last() =~= v@.subrange(
                a as int,
                b - 1 as int,
            ));
            assert(v@.subrange(a as int, b as int).last() == v@[b - 1 as int]);
        }
        b -= 1;
    }
    proof {
        if b > a {
            assert(v@.subrange(a as int, b as int).last() == v@[b - 1 as int]);
            assert(trim_back(v@.subrange(a as int, b as int)) == v@.subrange(a as int, b as int));
        } else {
            assert(v@.subrange(a as int, b as int) =~= Seq::<char>::empty());
        }
        assert(v@.skip(a as int) =~= v@.subrange(a as int, n as int));
    }
    vec_slice_copy(v, a, b)
}

/// A finished fenced code block.
#[derive(Debug)]
pub struct CodeBlock {
    pub language: String,
    pub code: String,
}

/// Mathematical image of a code block.
pub struct CodeBlockModel {
    pub language: Seq<char>,
    pub code: Seq<char>,
}

impl View for CodeBlock {
    type V = CodeBlockModel;

    open spec fn view(&self) -> CodeBlockModel {
        CodeBlockModel { language: self.language@, code: self.code@ }
    }
}

impl CodeBlock {
    /// An empty block for the given language.
    pub fn new(language: String) -> (r: Self)
        ensures
            r@.language == language@,
            r@.code == Seq::<char>::empty(),
    {
        CodeBlock { code: String::new(), language }
    }
}

/// Ghost state of the collector.
#[verifier::ext_equal]
pub struct CollectorModel {
    /// Inside an open fence.
    pub in_code: bool,
    /// At column zero, or still inside a line-start backtick run.
    pub at_line_start: bool,
    /// Length of the pending line-start backtick run, saturated at three.
    pub ticks: nat,
    /// On an opening fence line, past the backticks.
    pub lang_open: bool,
    /// The language tag collected so far on an opening fence line.
    pub lang_buf: Seq<char>,
    /// On a closing fence line, past the backticks.
    pub skip_rest: bool,
    /// Language of the open block.
    pub cur_lang: Seq<char>,
    /// Code of the open block collected so far.
    pub cur_code: Seq<char>,
    /// Finished blocks, in order of completion.
    pub blocks: Seq<CodeBlockModel>,
}

/// The collector's initial state.
pub open spec fn collector_init() -> CollectorModel {
    CollectorModel {
        in_code: false,
        at_line_start: true,
        ticks: 0,
        lang_open: false,
        lang_buf: Seq::empty(),
        skip_rest: false,
        cur_lang: Seq::empty(),
        cur_code: Seq::empty(),
        blocks: Seq::empty(),
    }
}

/// A run of backticks.
pub open spec fn tick_seq(n: nat) -> Seq<char> {
    Seq::new(n, |i: int| '`')
}

/// The open block, finished: one trailing line break stripped.
pub open spec fn finished_block(m: CollectorModel) -> CodeBlockModel {
    CodeBlockModel {
        language: m.cur_lang,
        code: if m.cur_code.len() > 0 && m.cur_code.last() == '\n' {
            m.cur_code.drop_last()
        } else {
            m.cur_code
        },
    }
}

/// Opens a block: the pending language tag, trimmed, names it.
pub open spec fn open_block(m: CollectorModel) -> CollectorModel {
    CollectorModel {
        in_code: true,
        at_line_start: true,
        ticks: 0,
        lang_open: false,
        lang_buf: Seq::empty(),
        skip_rest: false,
        cur_lang: trim_chars(m.lang_buf),
        cur_code: Seq::empty(),
        blocks: m.blocks,
    }
}

/// Closes the open block and stores it.
pub open spec fn close_block(m: CollectorModel) -> CollectorModel {
    CollectorModel {
        in_code: false,
        at_line_start: true,
        ticks: 0,
        lang_open: false,
        lang_buf: Seq::empty(),
        skip_rest: false,
        cur_lang: Seq::empty(),
        cur_code: Seq::empty(),
        blocks: m.blocks.push(finished_block(m)),
    }
}

/// One character of collection.
pub open spec fn collector_step(m: CollectorModel, c: char) -> CollectorModel {
    if m.lang_open {
        if c == '\n' {
            open_block(m)
        } else {
            CollectorModel { lang_buf: m.lang_buf.push(c), ..m }
        }
    } else if m.skip_rest {
        if c == '\n' {
            close_block(m)
        } else {
            m
        }
    } else if m.ticks > 0 {
        if c == '`' {
            CollectorModel { ticks: if m.ticks < 3 { m.ticks + 1 } else { 3nat }, ..m }
        } else if !m.in_code {
            if m.ticks >= 3 {
                if c == '\n' {
                    open_block(m)
                } else {
                    CollectorModel { ticks: 0, lang_open: true, lang_buf: seq![c], ..m }
                }
            } else {
                CollectorModel { ticks: 0, at_line_start: c == '\n', ..m }
            }
        } else {
            if m.ticks >= 3 {
                if c == '\n' {
                    close_block(m)
                } else {
                    CollectorModel { ticks: 0, skip_rest: true, ..m }
                }
            } else {
                CollectorModel {
                    ticks: 0,
                    at_line_start: c == '\n',
                    cur_code: m.cur_code + tick_seq(m.ticks).push(c),
                    ..m
                }
            }
        }
    } else if c == '`' && m.at_line_start {
        CollectorModel { ticks: 1, ..m }
    } else if m.in_code {
        CollectorModel { at_line_start: c == '\n', cur_code: m.cur_code.push(c), ..m }
    } else {
        CollectorModel { at_line_start: c == '\n', ..m }
    }
}

/// Collection over a whole text.
pub open spec fn collector_run(m: CollectorModel, t: Seq<char>) -> CollectorModel
    decreases t.len(),
{
    if t.len() == 0 {
        m
    } else {
        collector_run(collector_step(m, t[0]), t.drop_first())
    }
}

/// At stream end a pending fence line still takes effect: an unterminated
/// close line finishes its block; anything else leaves the open block
/// unfinished and uncollected.
pub open spec fn collector_finish(m: CollectorModel) -> CollectorModel {
    if m.in_code && (m.skip_rest || m.ticks >= 3) {
        close_block(m)
    } else {
        m
    }
}

/// Collection splits over concatenation: feeding text in any chunks leaves
/// the collector in the same state, so the collected blocks do not depend
/// on chunk boundaries.
pub proof fn lemma_collector_split(m: CollectorModel, a: Seq<char>, b: Seq<char>)
    ensures
        collector_run(m, a + b) == collector_run(collector_run(m, a), b),
    decreases a.len(),
{
    if a.len() == 0 {
        assert(a + b =~= b);
    } else {
        assert((a + b).drop_first() =~= a.drop_first() + b);
        lemma_collector_split(collector_step(m, a[0]), a.drop_first(), b);
    }
}

/// Feeding one character is one step.
pub proof fn lemma_collector_push(m: CollectorModel, s: Seq<char>, c: char)
    ensures
        collector_run(m, s.push(c)) == collector_step(collector_run(m, s), c),
{
    assert(s.push(c) =~= s + seq![c]);
    lemma_collector_split(m, s, seq![c]);
    assert(seq![c].drop_first() =~= Seq::<char>::empty());
    assert(seq![c][0] == c);
    assert(collector_run(collector_step(collector_run(m, s), c), Seq::<char>::empty())
        == collector_step(collector_run(m, s), c));
}

/// Outside a fence, with no fence line pending, text without backticks
/// passes the collector untouched: no block is opened, nothing is
/// captured, only the line position moves.
pub proof fn lemma_collector_plain(m: CollectorModel, t: Seq<char>)
    requires
        !m.in_code,
        !m.lang_open,
        !m.skip_rest,
        m.ticks == 0,
        forall|i: int| 0 <= i < t.len() ==> #[trigger] t[i] != '`',
    ensures
        collector_run(m, t) == (if t.len() == 0 {
            m
        } else {
            CollectorModel { at_line_start: t.last() == '\n', ..m }
        }),
    decreases t.len(),
{
    if t.len() == 0 {
    } else {
        assert(t[0] != '`');
        let m1 = collector_step(m, t[0]);
        assert(m1 == (CollectorModel { at_line_start: t[0] == '\n', ..m }));
        assert(forall|i: int|
            0 <= i < t.drop_first().len() ==> #[trigger] t.drop_first()[i] == t[i + 1]);
        lemma_collector_plain(m1, t.drop_first());
        if t.len() == 1 {
            assert(collector_run(m, t) =~= (CollectorModel { at_line_start: t.last() == '\n', ..m }));
        } else {
            assert(t.drop_first().last() == t.last());
            assert(collector_run(m, t) =~= (CollectorModel { at_line_start: t.last() == '\n', ..m }));
        }
    }
}

/// Extracts fenced code blocks from the streamed text.
pub struct Executor {
    in_code: bool,
    at_line_start: bool,
    ticks: usize,
    lang_open: bool,
    lang_buf: Vec<char>,
    skip_rest: bool,
    cur_lang: Vec<char>,
    cur_code: Vec<char>,
    codes: Vec<CodeBlock>,
}

impl View for Executor {
    type V = CollectorModel;

    closed spec fn view(&self) -> CollectorModel {
        CollectorModel {
            in_code: self.in_code,
            at_line_start: self.at_line_start,
            ticks: self.ticks as nat,
            lang_open: self.lang_open,
            lang_buf: self.lang_buf@,
            skip_rest: self.skip_rest,
            cur_lang: self.cur_lang@,
            cur_code: self.cur_code@,
            blocks: self.codes@.map_values(|b: CodeBlock| b@),
        }
    }
}

impl Executor {
    /// A fresh collector.
    pub fn new() -> (r: Self)
        ensures
            r@ == collector_init(),
    {
        let r = Executor {
            in_code: false,
            at_line_start: true,
            ticks: 0,
            lang_open: false,
            lang_buf: Vec::new(),
            skip_rest: false,
            cur_lang: Vec::new(),
            cur_code: Vec::new(),
            codes: Vec::new(),
        };
        proof {
            assert(r@ =~= collector_init());
        }
        r
    }

    /// The collected blocks, in order of completion.
    pub fn blocks(&self) -> (r: &Vec<CodeBlock>)
        ensures
            r@.map_values(|b: CodeBlock| b@) == self@.blocks,
    {
        &self.codes
    }

    /// Toggles the fence state: opens a block from the pending language
    /// tag, or finishes and stores the open one.
    fn switch_code_block(&mut self)
        ensures
            final(self)@ == if old(self)@.in_code {
                close_block(old(self)@)
            } else {
                open_block(old(self)@)
            },
    {
        if self.in_code {
            self.close_now();
        } else {
            self.open_now();
        }
    }

    /// Finishes and stores the open block.
    fn close_now(&mut self)
        ensures
            final(self)@ == close_block(old(self)@),
    {
        let mut code = Vec::new();
        core::mem::swap(&mut code, &mut self.cur_code);
        if code.len() > 0 && code[code.len() - 1] == '\n' {
            let ghost pre = code@;
            code.pop();
            proof {
                assert(code@ =~= pre.drop_last());
            }
        }
        let mut lang = Vec::new();
        core::mem::swap(&mut lang, &mut self.cur_lang);
        let block = CodeBlock { language: chars_to_string(&lang), code: chars_to_string(&code) };
        self.codes.push(block);
        self.in_code = false;
        self.at_line_start = true;
        self.ticks = 0;
        self.lang_open = false;
        self.lang_buf = Vec::new();
        self.skip_rest = false;
        proof {
            assert(final(self)@.blocks =~= old(self)@.blocks.push(finished_block(old(self)@)));
            assert(final(self)@ =~= close_block(old(self)@));
        }
    }

    /// Opens a block from the pending language tag.
    fn open_now(&mut self)
        ensures
            final(self)@ == open_block(old(self)@),
    {
        self.cur_lang = trim_vec(&self.lang_buf);
        self.cur_code = Vec::new();
        self.in_code = true;
        self.at_line_start = true;
        self.ticks = 0;
        self.lang_open = false;
        self.lang_buf = Vec::new();
        self.skip_rest = false;
        proof {
            assert(final(self)@ =~= open_block(old(self)@));
        }
    }

    /// One character of collection; mirrors `collector_step`.
    fn push_char(&mut self, c: char)
        ensures
            final(self)@ == collector_step(old(self)@, c),
    {
        if self.lang_open {
            if c == '\n' {
                self.open_now();
            } else {
                self.lang_buf.push(c);
            }
        } else if self.skip_rest {
            if c == '\n' {
                self.close_now();
            } else {
            }
        } else if self.ticks > 0 {
            if c == '`' {
                if self.ticks < 3 {
                    self.ticks = self.ticks + 1;
                } else {
                    self.ticks = 3;
                }
            } else if !self.in_code {
                if self.ticks >= 3 {
                    if c == '\n' {
                        self.open_now();
                    } else {
                        self.ticks = 0;
                        self.lang_open = true;
                        let mut lb: Vec<char> = Vec::new();
                        lb.push(c);
                        self.lang_buf = lb;
                        proof {
                            assert(self.lang_buf@ =~= seq![c]);
                        }
                    }
                } else {
                    self.ticks = 0;
                    self.at_line_start = c == '\n';
                }
            } else {
                if self.ticks >= 3 {
                    if c == '\n' {
                        self.close_now();
                    } else {
                        self.ticks = 0;
                        self.skip_rest = true;
                    }
                } else {
                    let ghost pre = old(self)@.cur_code;
                    let ticks = self.ticks;
                    let mut i: usize = 0;
                    while i < ticks
                        invariant
                            0 <= i <= ticks,
                            pre == old(self)@.cur_code,
                            ticks as nat == old(self)@.ticks,
                            self@ == (CollectorModel {
                                cur_code: pre + tick_seq(i as nat),
                                ..old(self)@
                            }),
                        decreases ticks - i,
                    {
                        self.cur_code.push('`');
                        i += 1;
                        proof {
                            assert(self@ =~= (CollectorModel {
                                cur_code: pre + tick_seq(i as nat),
                                ..old(self)@
                            }));
                        }
                    }
                    self.cur_code.push(c);
                    self.ticks = 0;
                    self.at_line_start = c == '\n';
                    proof {
                        assert(self.cur_code@ =~= pre + tick_seq(old(self)@.ticks).push(c));
                    }
                }
            }
        } else if c == '`' && self.at_line_start {
            self.ticks = 1;
        } else if self.in_code {
            self.cur_code.push(c);
            self.at_line_start = c == '\n';
        } else {
            self.at_line_start = c == '\n';
        }
        proof {
            assert(final(self)@ =~= collector_step(old(self)@, c));
        }
    }

    /// Collects from the next piece of streamed text.
    pub fn push(&mut self, text: &str)
        ensures
            final(self)@ == collector_run(old(self)@, text@),
    {
        let chars = str_to_chars(text);
        let n = chars.len();
        let mut i: usize = 0;
        while i < n
            invariant
                n == chars@.len(),
                chars@ == text@,
                0 <= i <= n,
                self@ == collector_run(old(self)@, text@.take(i as int)),
            decreases n - i,
        {
            proof {
                lemma_collector_push(old(self)@, text@.take(i as int), text@[i as int]);
                assert(text@.take(i as int).push(text@[i as int]) =~= text@.take(i + 1 as int));
            }
            self.push_char(chars[i]);
            i += 1;
        }
        proof {
            assert(text@.take(n as int) =~= text@);
        }
    }

    /// Marks the end of the stream: a pending close-fence line still
    /// finishes its block.
    pub fn finish(&mut self)
        ensures
            final(self)@ == collector_finish(old(self)@),
    {
        if self.in_code && (self.skip_rest || self.ticks >= 3) {
            self.switch_code_block();
        }
    }
}

} // verus!
