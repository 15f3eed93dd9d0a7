//! One generation session: chunks in, display tokens and code blocks out.
//!
//! The stages run synchronously per chunk and in producer order: the
//! splitter cuts chunks into frames, each frame decodes to one event, a
//! message's fragment passes the stop filter (which may truncate it and
//! end the session), and the surviving text is tokenized and collected.
//! The session ends cleanly on a stop match, a `Done` event, a decode
//! error, or `finish` (transport closed).  On early termination any open
//! header or fence is left unterminated deliberately: no synthetic close
//! tokens are invented.

use vstd::prelude::*;

use crate::decoder::DecodeError;
use crate::decoder::ResponseEvent;
use crate::decoder::decode;
use crate::decoder::display_text;
use crate::decoder::content_of;
use crate::decoder::error_matches;
use crate::decoder::frame_fails;
use crate::decoder::is_done_frame;
use crate::decoder::is_sse;
use crate::decoder::sse_body;
use crate::decoder::status_field_of;
use crate::executor::CodeBlock;
use crate::executor::CodeBlockModel;
use crate::executor::CollectorModel;
use crate::executor::Executor;
use crate::executor::collector_finish;
use crate::executor::collector_run;
use crate::markdown::MarkdownTokenizer;
use crate::markdown::TokenizerModel;
use crate::markdown::tok_finish;
use crate::markdown::tok_push;
use crate::splitter::FrameSplitter;
use crate::splitter::concat_chunks;
use crate::splitter::lemma_chunking_independent;
use crate::splitter::split_carry;
use crate::splitter::split_frames;
use crate::splitter::stream_frames;
use crate::stop::FilterState;
use crate::stop::StopFilter;
use crate::stop::StopToken;
use crate::stop::feed_model;
use crate::stop::zeros;
use crate::token::Token;
use crate::token::TokenModel;
use crate::token::token_views;

verus! {

/// The frame delimiter: a blank line.
pub open spec fn frame_delim() -> Seq<u8> {
    seq![10u8, 10u8]
}

/// The tokens that ending the stream emits from the given held-back text
/// and tokenizer state: the held text's tokens, then the tokenizer's
/// final flush.
pub open spec fn finish_tokens(held: Seq<char>, tok: TokenizerModel) -> Seq<
    crate::token::TokenModel,
> {
    let tp = tok_push(tok, held);
    tp.1 + tok_finish(tp.0)
}

/// The display form of a backend status line.
pub open spec fn status_shown(s: Seq<char>) -> Seq<char> {
    "<Status from OpenAI API: "@ + s + ">"@
}

/// Ghost state of the pipeline stages behind the splitter.
#[verifier::ext_equal]
pub struct PipeState {
    pub patterns: Seq<Seq<char>>,
    pub filter: FilterState,
    pub tok: TokenizerModel,
    pub col: CollectorModel,
    pub done: bool,
}

/// What one frame does to the pipeline, and the tokens it emits.  A
/// failing frame terminates with no tokens; the done sentinel releases
/// the held-back text and terminates; a message fragment passes the stop
/// filter, then the tokenizer and the collector; a status line's display
/// text passes the tokenizer.
pub open spec fn pipe_frame(st: PipeState, f: Seq<u8>) -> (PipeState, Seq<TokenModel>) {
    if frame_fails(f) {
        (PipeState { done: true, ..st }, Seq::empty())
    } else if is_done_frame(f) {
        let tail = st.filter.held;
        let tp = tok_push(st.tok, tail);
        (
            PipeState {
                filter: FilterState {
                    counters: zeros(st.patterns.len()),
                    held: Seq::empty(),
                },
                tok: tp.0,
                col: collector_run(st.col, tail),
                done: true,
                ..st
            },
            tp.1,
        )
    } else if is_sse(f) {
        let fm = feed_model(st.patterns, st.filter, content_of(sse_body(f)));
        let tp = tok_push(st.tok, fm.1);
        (
            PipeState {
                filter: fm.0,
                tok: tp.0,
                col: collector_run(st.col, fm.1),
                done: st.done || fm.2,
                ..st
            },
            tp.1,
        )
    } else {
        let shown = status_shown(status_field_of(f)->Some_0->Some_0);
        let tp = tok_push(st.tok, shown);
        (PipeState { tok: tp.0, ..st }, tp.1)
    }
}

/// The frames of one chunk through the pipeline, in order, stopping at
/// termination.
pub open spec fn pipe_frames(st: PipeState, fs: Seq<Seq<u8>>) -> (PipeState, Seq<TokenModel>)
    decreases fs.len(),
{
    if fs.len() == 0 || st.done {
        (st, Seq::empty())
    } else {
        let first = pipe_frame(st, fs[0]);
        let rest = pipe_frames(first.0, fs.drop_first());
        (rest.0, first.1 + rest.1)
    }
}

/// The fold splits over concatenation; a terminated pipeline stays put.
proof fn lemma_pipe_frames_append(st: PipeState, a: Seq<Seq<u8>>, b: Seq<Seq<u8>>)
    ensures
        pipe_frames(st, a + b) == ({
            let p = pipe_frames(st, a);
            let q = pipe_frames(p.0, b);
            (q.0, p.1 + q.1)
        }),
    decreases a.len(),
{
    if a.len() == 0 {
        assert(a + b =~= b);
        let q = pipe_frames(st, b);
        assert(Seq::<TokenModel>::empty() + q.1 =~= q.1);
        assert(pipe_frames(st, a + b) =~= (q.0, pipe_frames(st, a).1 + q.1));
    } else if st.done {
        assert((a + b).len() > 0);
        assert(pipe_frames(st, a + b) =~= (st, Seq::<TokenModel>::empty()));
        assert(Seq::<TokenModel>::empty() + Seq::<TokenModel>::empty()
            =~= Seq::<TokenModel>::empty());
    } else {
        assert((a + b)[0] == a[0]);
        assert((a + b).drop_first() =~= a.drop_first() + b);
        let first = pipe_frame(st, a[0]);
        lemma_pipe_frames_append(first.0, a.drop_first(), b);
        let p = pipe_frames(st, a);
        let q = pipe_frames(p.0, b);
        assert(first.1 + (pipe_frames(first.0, a.drop_first()).1 + q.1) =~= p.1 + q.1);
        assert(pipe_frames(st, a + b) =~= (q.0, p.1 + q.1));
    }
}

/// Processing one more frame extends the fold, unless the pipeline has
/// already terminated.
proof fn lemma_pipe_frames_push(st: PipeState, fs: Seq<Seq<u8>>, f: Seq<u8>)
    ensures
        pipe_frames(st, fs.push(f)) == ({
            let p = pipe_frames(st, fs);
            if p.0.done {
                p
            } else {
                let q = pipe_frame(p.0, f);
                (q.0, p.1 + q.1)
            }
        }),
    decreases fs.len(),
{
    if fs.len() == 0 {
        if st.done {
            assert(fs.push(f).len() > 0);
            assert(pipe_frames(st, fs.push(f)) =~= (st, Seq::<TokenModel>::empty()));
        } else {
            assert(fs.push(f)[0] == f);
            assert(fs.push(f).drop_first() =~= Seq::<Seq<u8>>::empty());
            let q = pipe_frame(st, f);
            assert(pipe_frames(q.0, Seq::<Seq<u8>>::empty()) == (
                q.0,
                Seq::<TokenModel>::empty(),
            ));
            assert(q.1 + Seq::<TokenModel>::empty() =~= q.1);
            assert(Seq::<TokenModel>::empty() + q.1 =~= q.1);
            assert(pipe_frames(st, fs.push(f)) =~= (q.0, pipe_frames(st, fs).1 + q.1));
        }
    } else if st.done {
    } else {
        assert(fs.push(f)[0] == fs[0]);
        assert(fs.push(f).drop_first() =~= fs.drop_first().push(f));
        let first = pipe_frame(st, fs[0]);
        lemma_pipe_frames_push(first.0, fs.drop_first(), f);
        let p = pipe_frames(st, fs);
        if p.0.done {
            assert(pipe_frames(st, fs.push(f)) =~= p);
        } else {
            let q = pipe_frame(p.0, f);
            assert(first.1 + (pipe_frames(first.0, fs.drop_first()).1 + q.1) =~= p.1 + q.1);
            assert(pipe_frames(st, fs.push(f)) =~= (q.0, p.1 + q.1));
        }
    }
}

/// Chunk-boundary independence, end to end: two chunkings of the same
/// byte stream yield the same frame sequence, hence the same pipeline
/// states and the same token stream.
pub proof fn lemma_pipeline_chunking_independent(
    st: PipeState,
    cs1: Seq<Seq<u8>>,
    cs2: Seq<Seq<u8>>,
)
    requires
        concat_chunks(cs1) == concat_chunks(cs2),
    ensures
        pipe_frames(st, stream_frames(cs1, frame_delim())) == pipe_frames(
            st,
            stream_frames(cs2, frame_delim()),
        ),
{
    lemma_chunking_independent(cs1, cs2, frame_delim());
}

/// A whole streaming session's state; created at session start, discarded
/// at session end.
pub struct Session {
    splitter: FrameSplitter,
    stops: StopFilter,
    tokenizer: MarkdownTokenizer,
    collector: Executor,
    done: bool,
}

impl Session {
    /// The session has terminated (stop match, `Done`, error, or finish).
    pub closed spec fn is_done_view(&self) -> bool {
        self.done
    }

    /// The collected code blocks.
    pub closed spec fn blocks_view(&self) -> Seq<CodeBlockModel> {
        self.collector@.blocks
    }

    /// The bytes after the last complete delimiter seen so far.
    pub closed spec fn carry_view(&self) -> Seq<u8> {
        self.splitter.carry_view()
    }

    /// The configured stop patterns.
    pub closed spec fn patterns_view(&self) -> Seq<Seq<char>> {
        self.stops.patterns()
    }

    /// The text held back as a partial stop-pattern match.
    pub closed spec fn held_view(&self) -> Seq<char> {
        self.stops.state().held
    }

    /// The tokenizer's state.
    pub closed spec fn tok_view(&self) -> TokenizerModel {
        self.tokenizer@
    }

    /// The collector's state.
    pub closed spec fn col_view(&self) -> CollectorModel {
        self.collector@
    }

    /// The pipeline stages behind the splitter, as one ghost state.
    pub closed spec fn pipe_view(&self) -> PipeState {
        PipeState {
            patterns: self.stops.patterns(),
            filter: self.stops.state(),
            tok: self.tokenizer@,
            col: self.collector@,
            done: self.done,
        }
    }

    pub closed spec fn wf(&self) -> bool {
        &&& self.splitter.wf()
        &&& self.splitter.delim_view() == frame_delim()
        &&& self.stops.wf()
    }

    /// Nothing has arrived yet: every stage is at its start state.
    pub closed spec fn at_start(&self) -> bool {
        &&& self.splitter.carry_view() == Seq::<u8>::empty()
        &&& self.stops.state().held == Seq::<char>::empty()
        &&& self.tokenizer@ == crate::markdown::tokenizer_init()
        &&& self.collector@ == crate::executor::collector_init()
        &&& !self.done
    }

    /// A fresh session: frames bounded by a blank line, no stop patterns
    /// yet, everything at its start state.
    pub fn new() -> (r: Self)
        ensures
            r.wf(),
            r.at_start(),
            !r.is_done_view(),
            r.patterns_view() == Seq::<Seq<char>>::empty(),
            r.blocks_view() == Seq::<CodeBlockModel>::empty(),
    {
        let mut delim: Vec<u8> = Vec::new();
        delim.push(10);
        delim.push(10);
        proof {
            assert(delim@ =~= frame_delim());
        }
        Session {
            splitter: FrameSplitter::new(delim),
            stops: StopFilter::new(),
            tokenizer: MarkdownTokenizer::new(),
            collector: Executor::new(),
            done: false,
        }
    }

    /// Configures one stop pattern; patterns are set before the stream
    /// starts.
    pub fn add_stop(&mut self, stop: StopToken)
        requires
            old(self).wf(),
            1 <= stop@.len(),
        ensures
            final(self).wf(),
            final(self).is_done_view() == old(self).is_done_view(),
            final(self).blocks_view() == old(self).blocks_view(),
            final(self).patterns_view() == old(self).patterns_view().push(stop@),
            final(self).carry_view() == old(self).carry_view(),
            final(self).held_view() == old(self).held_view(),
    {
        self.stops.add_stop(stop);
    }

    /// Whether the session has terminated.
    pub fn is_done(&self) -> (r: bool)
        ensures
            r == self.is_done_view(),
    {
        self.done
    }

    /// The collected code blocks, for the code-running collaborator.
    pub fn blocks(&self) -> (r: &Vec<CodeBlock>)
        ensures
            r@.map_values(|b: CodeBlock| b@) == self.blocks_view(),
    {
        self.collector.blocks()
    }

    /// Runs one text fragment through the stop filter, the tokenizer and
    /// the collector, appending the emitted tokens.
    fn feed_text(&mut self, fragment: &str, out: &mut Vec<Token>)
        requires
            old(self).wf(),
        ensures
            final(self).wf(),
            final(self).splitter == old(self).splitter,
            ({
                let fm = feed_model(
                    old(self).patterns_view(),
                    old(self).pipe_view().filter,
                    fragment@,
                );
                let tp = tok_push(old(self).tok_view(), fm.1);
                &&& final(self).pipe_view() == (PipeState {
                    filter: fm.0,
                    tok: tp.0,
                    col: collector_run(old(self).col_view(), fm.1),
                    done: old(self).is_done_view() || fm.2,
                    ..old(self).pipe_view()
                })
                &&& token_views(final(out)@) == token_views(old(out)@) + tp.1
            }),
    {
        let (pass, matched) = self.stops.feed(fragment);
        let mut toks = self.tokenizer.push(pass.as_str());
        let ghost toks_pre = toks@;
        let ghost out_before = out@;
        out.append(&mut toks);
        self.collector.push(pass.as_str());
        if matched {
            self.done = true;
        }
        proof {
            assert(token_views(final(out)@) =~= token_views(out_before) + token_views(toks_pre));
            let fm = feed_model(
                old(self).patterns_view(),
                old(self).pipe_view().filter,
                fragment@,
            );
            let tp = tok_push(old(self).tok_view(), fm.1);
            assert(final(self).pipe_view() =~= (PipeState {
                filter: fm.0,
                tok: tp.0,
                col: collector_run(old(self).col_view(), fm.1),
                done: old(self).is_done_view() || fm.2,
                ..old(self).pipe_view()
            }));
        }
    }

    /// Processes one decoded event: a message's fragment is filtered and
    /// fed on, a status line's display text is tokenized, the done
    /// sentinel releases the held-back text and terminates.
    fn feed_event(&mut self, event: ResponseEvent, out: &mut Vec<Token>)
        requires
            old(self).wf(),
        ensures
            final(self).wf(),
            final(self).splitter == old(self).splitter,
            final(self).patterns_view() == old(self).patterns_view(),
            old(self).is_done_view() ==> final(self).is_done_view(),
            event is Done ==> final(self).is_done_view(),
            ({
                match event {
                    ResponseEvent::Message { fragment } => {
                        let fm = feed_model(
                            old(self).patterns_view(),
                            old(self).pipe_view().filter,
                            fragment@,
                        );
                        let tp = tok_push(old(self).tok_view(), fm.1);
                        &&& final(self).pipe_view() == (PipeState {
                            filter: fm.0,
                            tok: tp.0,
                            col: collector_run(old(self).col_view(), fm.1),
                            done: old(self).is_done_view() || fm.2,
                            ..old(self).pipe_view()
                        })
                        &&& token_views(final(out)@) == token_views(old(out)@) + tp.1
                    },
                    ResponseEvent::Status { text } => {
                        let tp = tok_push(old(self).tok_view(), status_shown(text@));
                        &&& final(self).pipe_view() == (PipeState {
                            tok: tp.0,
                            ..old(self).pipe_view()
                        })
                        &&& token_views(final(out)@) == token_views(old(out)@) + tp.1
                    },
                    ResponseEvent::Done => {
                        let tail = old(self).held_view();
                        let tp = tok_push(old(self).tok_view(), tail);
                        &&& final(self).pipe_view() == (PipeState {
                            filter: FilterState {
                                counters: zeros(old(self).patterns_view().len()),
                                held: Seq::<char>::empty(),
                            },
                            tok: tp.0,
                            col: collector_run(old(self).col_view(), tail),
                            done: true,
                            ..old(self).pipe_view()
                        })
                        &&& token_views(final(out)@) == token_views(old(out)@) + tp.1
                    },
                }
            }),
    {
        match event {
            ResponseEvent::Message { fragment } => {
                self.feed_text(fragment.as_str(), out);
            },
            ResponseEvent::Status { text } => {
                let ghost text_view = text@;
                let shown = display_text(&ResponseEvent::Status { text });
                let mut toks = self.tokenizer.push(shown.as_str());
                let ghost toks_pre = toks@;
                let ghost out_before = out@;
                out.append(&mut toks);
                proof {
                    assert(shown@ == status_shown(text_view));
                    assert(token_views(final(out)@) =~= token_views(out_before) + token_views(
                        toks_pre,
                    ));
                    assert(final(self).pipe_view() =~= (PipeState {
                        tok: tok_push(old(self).tok_view(), status_shown(text_view)).0,
                        ..old(self).pipe_view()
                    }));
                }
            },
            ResponseEvent::Done => {
                let tail = self.stops.flush();
                let mut toks = self.tokenizer.push(tail.as_str());
                let ghost toks_pre = toks@;
                let ghost out_before = out@;
                out.append(&mut toks);
                self.collector.push(tail.as_str());
                self.done = true;
                proof {
                    assert(token_views(final(out)@) =~= token_views(out_before) + token_views(
                        toks_pre,
                    ));
                    let tp = tok_push(old(self).tok_view(), old(self).held_view());
                    assert(final(self).pipe_view() =~= (PipeState {
                        filter: FilterState {
                            counters: zeros(old(self).patterns_view().len()),
                            held: Seq::<char>::empty(),
                        },
                        tok: tp.0,
                        col: collector_run(old(self).col_view(), old(self).held_view()),
                        done: true,
                        ..old(self).pipe_view()
                    }));
                }
            },
        }
    }

    /// Feeds the next raw chunk through the whole pipeline and returns the
    /// display tokens it produced, in stream order.
    ///
    /// The chunk's complete frames are processed in order.  A frame that
    /// fails to decode returns that frame's own error and terminates the
    /// session; the done sentinel terminates it cleanly; on a live return
    /// no frame of the chunk was terminating.  After termination further
    /// chunks produce nothing.
    pub fn push_chunk(&mut self, chunk: &[u8]) -> (r: Result<Vec<Token>, DecodeError>)
        requires
            old(self).wf(),
        ensures
            final(self).wf(),
            final(self).patterns_view() == old(self).patterns_view(),
            old(self).is_done_view() ==> *final(self) == *old(self) && (r is Ok
                && r->Ok_0@.len() == 0),
            r is Err ==> final(self).is_done_view(),
            !old(self).is_done_view() ==> final(self).carry_view() == split_carry(
                old(self).carry_view() + chunk@,
                frame_delim(),
            ),
            ({
                let fs = split_frames(old(self).carry_view() + chunk@, frame_delim());
                &&& (!old(self).is_done_view() && r is Ok && !final(self).is_done_view()
                    ==> (forall|i: int|
                    0 <= i < fs.len() ==> !is_done_frame(#[trigger] fs[i]) && !frame_fails(
                        fs[i],
                    )))
                &&& (!old(self).is_done_view() ==> (r matches Err(e) ==> (exists|i: int|
                    0 <= i < fs.len() && frame_fails(#[trigger] fs[i]) && error_matches(
                        fs[i],
                        e,
                    ))))
                &&& (!old(self).is_done_view() && r is Ok ==> ({
                    let p = pipe_frames(old(self).pipe_view(), fs);
                    &&& final(self).pipe_view() == p.0
                    &&& token_views(r->Ok_0@) == p.1
                }))
            }),
    {
        let mut out: Vec<Token> = Vec::new();
        if self.done {
            return Ok(out);
        }
        let ghost fs = split_frames(old(self).carry_view() + chunk@, frame_delim());
        let frames = self.splitter.push(chunk);
        let ghost sp = self.splitter;
        let n = frames.len();
        let mut i: usize = 0;
        while i < n && !self.done
            invariant
                !old(self).is_done_view(),
                self.wf(),
                self.splitter == sp,
                sp.carry_view() == split_carry(old(self).carry_view() + chunk@, frame_delim()),
                self.patterns_view() == old(self).patterns_view(),
                fs == split_frames(old(self).carry_view() + chunk@, frame_delim()),
                fs == frames@.map_values(|f: Vec<u8>| f@),
                fs.len() == n,
                n == frames@.len(),
                0 <= i <= n,
                !self.done ==> (forall|j: int|
                    0 <= j < i ==> !is_done_frame(#[trigger] fs[j]) && !frame_fails(fs[j])),
                ({
                    let p = pipe_frames(old(self).pipe_view(), fs.take(i as int));
                    &&& self.pipe_view() == p.0
                    &&& token_views(out@) == p.1
                }),
            decreases n - i,
        {
            proof {
                assert(frames@.map_values(|f: Vec<u8>| f@)[i as int] == frames@[i as int]@);
                lemma_pipe_frames_push(old(self).pipe_view(), fs.take(i as int), fs[i as int]);
                assert(fs.take(i as int).push(fs[i as int]) =~= fs.take(i + 1 as int));
            }
            match decode(frames[i].as_slice()) {
                Err(e) => {
                    self.done = true;
                    proof {
                        assert(frame_fails(fs[i as int]) && error_matches(fs[i as int], e));
                    }
                    return Err(e);
                },
                Ok(event) => {
                    let ghost ev = event;
                    let ghost pre_pipe = self.pipe_view();
                    self.feed_event(event, &mut out);
                    proof {
                        let p = pipe_frames(old(self).pipe_view(), fs.take(i as int));
                        let q = pipe_frame(p.0, fs[i as int]);
                        match ev {
                            ResponseEvent::Done => {
                                assert(is_done_frame(fs[i as int]));
                            },
                            ResponseEvent::Message { fragment } => {
                                assert(is_sse(fs[i as int]) && !is_done_frame(fs[i as int]));
                                assert(fragment@ == content_of(sse_body(fs[i as int])));
                            },
                            ResponseEvent::Status { text } => {
                                assert(!is_sse(fs[i as int]));
                                assert(status_field_of(fs[i as int]) == Some(Some(text@)));
                            },
                        }
                        assert(self.pipe_view() =~= q.0);
                        assert(token_views(out@) =~= p.1 + q.1);
                    }
                },
            }
            i += 1;
        }
        proof {
            let p = pipe_frames(old(self).pipe_view(), fs.take(i as int));
            if i < n {
                lemma_pipe_frames_append(
                    old(self).pipe_view(),
                    fs.take(i as int),
                    fs.skip(i as int),
                );
                assert(fs.take(i as int) + fs.skip(i as int) =~= fs);
                assert(pipe_frames(p.0, fs.skip(i as int)) == (
                    p.0,
                    Seq::<TokenModel>::empty(),
                ));
                assert(p.1 + Seq::<TokenModel>::empty() =~= p.1);
            } else {
                assert(fs.take(i as int) =~= fs);
            }
        }
        Ok(out)
    }

    /// Ends the stream: the splitter's remainder is decoded as a final
    /// frame, held-back text is released through the tokenizer and
    /// collector, and pending markers take their line-boundary effect.
    /// The session is terminated.  The returned tokens are the remainder
    /// frame's (if any), then the held text's, then the tokenizer's final
    /// flush; a remainder that fails to decode returns its own error.
    pub fn finish(&mut self) -> (r: Result<Vec<Token>, DecodeError>)
        requires
            old(self).wf(),
        ensures
            final(self).wf(),
            final(self).is_done_view(),
            final(self).patterns_view() == old(self).patterns_view(),
            !old(self).is_done_view() ==> final(self).carry_view() == Seq::<u8>::empty(),
            !old(self).is_done_view() ==> (r matches Err(e) ==> old(self).carry_view().len() > 0
                && frame_fails(old(self).carry_view()) && error_matches(
                old(self).carry_view(),
                e,
            )),
            !old(self).is_done_view() && old(self).carry_view().len() == 0 ==> (r is Ok
                && token_views(r->Ok_0@) == finish_tokens(old(self).held_view(), old(self).tok_view())
                && final(self).col_view() == collector_finish(
                collector_run(old(self).col_view(), old(self).held_view()),
            )),
            !old(self).is_done_view() && old(self).carry_view().len() > 0 ==> (r matches Ok(toks)
                ==> ({
                let q = pipe_frame(old(self).pipe_view(), old(self).carry_view());
                &&& (!q.0.done ==> token_views(toks@) == q.1 + finish_tokens(
                    q.0.filter.held,
                    q.0.tok,
                ))
                &&& (q.0.done ==> token_views(toks@) == q.1 + tok_finish(q.0.tok))
            })),
            old(self).at_start() ==> r is Ok && r->Ok_0@.len() == 0 && final(self).blocks_view()
                == Seq::<CodeBlockModel>::empty(),
    {
        let mut out: Vec<Token> = Vec::new();
        if self.done {
            return Ok(out);
        }
        match self.splitter.finish() {
            None => {},
            Some(last) => {
                match decode(last.as_slice()) {
                    Err(e) => {
                        self.done = true;
                        return Err(e);
                    },
                    Ok(event) => {
                        let ghost ev = event;
                        self.feed_event(event, &mut out);
                        proof {
                            let f = old(self).carry_view();
                            let q = pipe_frame(old(self).pipe_view(), f);
                            match ev {
                                ResponseEvent::Done => {
                                    assert(is_done_frame(f));
                                },
                                ResponseEvent::Message { fragment } => {
                                    assert(is_sse(f) && !is_done_frame(f));
                                    assert(fragment@ == content_of(sse_body(f)));
                                },
                                ResponseEvent::Status { text } => {
                                    assert(!is_sse(f));
                                    assert(status_field_of(f) == Some(Some(text@)));
                                },
                            }
                            assert(self.pipe_view() =~= q.0);
                            assert(token_views(out@) =~= q.1);
                        }
                    },
                }
            },
        }
        let ghost mid_pipe = self.pipe_view();
        let ghost out_mid = token_views(out@);
        if !self.done {
            let tail = self.stops.flush();
            let mut toks = self.tokenizer.push(tail.as_str());
            let ghost toks_pre = toks@;
            let ghost out_before = out@;
            proof {
                if old(self).at_start() {
                    lemma_start_is_silent();
                    assert(tail@ =~= Seq::<char>::empty());
                    assert(token_views(toks@).len() == toks@.len());
                    assert(toks@.len() == 0);
                }
            }
            out.append(&mut toks);
            self.collector.push(tail.as_str());
            proof {
                assert(token_views(out@) =~= token_views(out_before) + token_views(toks_pre));
            }
        }
        let mut fin = self.tokenizer.finish();
        let ghost out_pre = out@;
        let ghost fin_pre = fin@;
        proof {
            if old(self).at_start() {
                lemma_start_is_silent();
                assert(token_views(fin@).len() == fin@.len());
                assert(fin@.len() == 0);
            }
        }
        out.append(&mut fin);
        self.collector.finish();
        self.done = true;
        proof {
            assert(token_views(out@) =~= token_views(out_pre) + token_views(fin_pre));
            if !old(self).is_done_view() && old(self).carry_view().len() == 0 {
                assert(token_views(out@) =~= finish_tokens(
                    old(self).held_view(),
                    old(self).tok_view(),
                ));
            }
            if !old(self).is_done_view() && old(self).carry_view().len() > 0 {
                let q = pipe_frame(old(self).pipe_view(), old(self).carry_view());
                if !q.0.done {
                    assert(token_views(out@) =~= q.1 + finish_tokens(
                        q.0.filter.held,
                        q.0.tok,
                    ));
                } else {
                    assert(token_views(out@) =~= q.1 + tok_finish(q.0.tok));
                }
            }
            if old(self).at_start() {
                assert(final(self).blocks_view() =~= Seq::<CodeBlockModel>::empty());
            }
        }
        Ok(out)
    }
}

/// At the start state nothing is pending, so ending the stream emits
/// nothing: folding no characters changes nothing, and every final flush
/// is empty.
proof fn lemma_start_is_silent()
    ensures
        crate::markdown::tok_push(crate::markdown::tokenizer_init(), Seq::<char>::empty()).1
            == Seq::<crate::token::TokenModel>::empty(),
        crate::markdown::tok_finish(crate::markdown::tokenizer_init())
            == Seq::<crate::token::TokenModel>::empty(),
        crate::executor::collector_run(crate::executor::collector_init(), Seq::<char>::empty())
            == crate::executor::collector_init(),
        crate::executor::collector_finish(crate::executor::collector_init())
            == crate::executor::collector_init(),
{
    let init = crate::markdown::tokenizer_init();
    let f = crate::markdown::tok_fold(init, Seq::<char>::empty(), Seq::<char>::empty());
    assert(f.2 + crate::markdown::flush_buf(f.1) =~= Seq::<crate::token::TokenModel>::empty());
    assert(crate::markdown::char_run(0, '`') + crate::markdown::char_run(0, '#')
        + crate::markdown::char_run(0, '*') =~= Seq::<char>::empty());
}

} // verus!
