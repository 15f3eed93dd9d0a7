//! Stop-sequence matching: each configured literal pattern keeps a progress
//! counter recording how many of its leading characters have matched
//! contiguously in the text seen so far.  Counters persist across fragments
//! within a session, so a stop sequence split across fragment boundaries is
//! still detected.
//!
//! Matching restarts naively: on a mismatching character the counter simply
//! returns to zero, with no partial-overlap optimization.  The patterns are
//! short operator-supplied control strings, so this is acceptable.

use vstd::prelude::*;

verus! {

/// One matching step: a progress counter against the next character.
pub open spec fn stop_step(p: Seq<char>, k: nat, c: char) -> nat {
    if k < p.len() && p[k as int] == c {
        k + 1
    } else {
        0
    }
}

/// The progress counter after scanning all of `t`, starting from `k`.
pub open spec fn scan_counter(p: Seq<char>, k: nat, t: Seq<char>) -> nat
    decreases t.len(),
{
    if t.len() == 0 {
        k
    } else {
        scan_counter(p, stop_step(p, k, t[0]), t.drop_first())
    }
}

/// Index in `t` of the character that first completes a full match of `p`,
/// scanning from counter `k`, if any.
pub open spec fn first_hit(p: Seq<char>, k: nat, t: Seq<char>) -> Option<int>
    decreases t.len(),
{
    if t.len() == 0 {
        None
    } else if 1 <= p.len() && stop_step(p, k, t[0]) == p.len() {
        Some(0)
    } else {
        match first_hit(p, stop_step(p, k, t[0]), t.drop_first()) {
            Some(j) => Some(j + 1),
            None => None,
        }
    }
}

/// Scanning splits over concatenation.
pub proof fn lemma_scan_append(p: Seq<char>, k: nat, a: Seq<char>, b: Seq<char>)
    ensures
        scan_counter(p, k, a + b) == scan_counter(p, scan_counter(p, k, a), b),
    decreases a.len(),
{
    if a.len() == 0 {
        assert(a + b =~= b);
    } else {
        assert((a + b).drop_first() =~= a.drop_first() + b);
        lemma_scan_append(p, stop_step(p, k, a[0]), a.drop_first(), b);
    }
}

/// Match detection splits over concatenation: a match in `a + b` is a match
/// in `a`, or else a match in `b` starting from the counter left by `a`.
pub proof fn lemma_hit_append(p: Seq<char>, k: nat, a: Seq<char>, b: Seq<char>)
    ensures
        first_hit(p, k, a + b) == match first_hit(p, k, a) {
            Some(j) => Some(j),
            None => match first_hit(p, scan_counter(p, k, a), b) {
                Some(j) => Some(j + a.len()),
                None => None::<int>,
            },
        },
    decreases a.len(),
{
    if a.len() == 0 {
        assert(a + b =~= b);
    } else {
        assert((a + b).drop_first() =~= a.drop_first() + b);
        lemma_hit_append(p, stop_step(p, k, a[0]), a.drop_first(), b);
    }
}

/// Detection is unchanged by splitting a fragment in two: a pattern
/// completes somewhere in the whole text exactly when it completes in the
/// first part, or in the second part scanning on from the counter the
/// first part leaves — which is why the manager's persistent counters
/// find a stop sequence however the text is fragmented.
pub proof fn lemma_check_split(p: Seq<char>, k: nat, t: Seq<char>, i: int)
    requires
        0 <= i <= t.len(),
    ensures
        (first_hit(p, k, t) is Some) <==> (first_hit(p, k, t.take(i)) is Some || first_hit(
            p,
            scan_counter(p, k, t.take(i)),
            t.skip(i),
        ) is Some),
{
    lemma_hit_append(p, k, t.take(i), t.skip(i));
    assert(t.take(i) + t.skip(i) =~= t);
}

/// Without a full match, the counter stays below the pattern length.
pub proof fn lemma_no_hit_counter(p: Seq<char>, k: nat, t: Seq<char>)
    requires
        1 <= p.len(),
        k < p.len(),
        first_hit(p, k, t) is None,
    ensures
        scan_counter(p, k, t) < p.len(),
    decreases t.len(),
{
    if t.len() == 0 {
    } else {
        lemma_no_hit_counter(p, stop_step(p, k, t[0]), t.drop_first());
    }
}

/// The counter can grow by at most one per character.
pub proof fn lemma_scan_le(p: Seq<char>, k: nat, t: Seq<char>)
    ensures
        scan_counter(p, k, t) <= k + t.len(),
    decreases t.len(),
{
    if t.len() == 0 {
    } else {
        lemma_scan_le(p, stop_step(p, k, t[0]), t.drop_first());
    }
}

/// Scanning a single character is one matching step.
pub proof fn lemma_single_char(p: Seq<char>, k: nat, c: char)
    ensures
        scan_counter(p, k, seq![c]) == stop_step(p, k, c),
        first_hit(p, k, seq![c]) == (if 1 <= p.len() && stop_step(p, k, c) == p.len() {
            Some(0int)
        } else {
            None::<int>
        }),
{
    assert(seq![c].drop_first() =~= Seq::<char>::empty());
    assert(seq![c][0] == c);
    assert(scan_counter(p, stop_step(p, k, c), Seq::<char>::empty()) == stop_step(p, k, c));
    assert(first_hit(p, stop_step(p, k, c), Seq::<char>::empty()) is None);
}

/// A configured stop pattern: a literal string matched character by
/// character.
pub struct StopToken {
    chars: Vec<char>,
}

impl View for StopToken {
    type V = Seq<char>;

    closed spec fn view(&self) -> Seq<char> {
        self.chars@
    }
}

impl StopToken {
    /// A new pattern.  Patterns are non-empty: an empty pattern would match
    /// before any character arrives.
    pub fn new(text: String) -> (r: Self)
        requires
            1 <= text@.len(),
        ensures
            r@ == text@,
    {
        StopToken { chars: crate::token::str_to_chars(text.as_str()) }
    }

    /// A matching cursor over this pattern, starting at the given progress.
    pub fn inspect_from(&self, index: usize) -> (r: StopTokenInspector<'_>)
        requires
            index < self@.len(),
        ensures
            r.pattern() == self@,
            r.progress() == index as nat,
    {
        StopTokenInspector { stop: self, index }
    }
}

/// Outcome of feeding text to a matching cursor.
#[derive(Clone, Copy, PartialEq, Eq, Structural, Debug)]
pub enum StopTokenState {
    InProgress,
    Found,
}

/// A matching cursor: a pattern together with its progress counter.
pub struct StopTokenInspector<'a> {
    stop: &'a StopToken,
    index: usize,
}

impl<'a> StopTokenInspector<'a> {
    /// The pattern matched against.
    pub closed spec fn pattern(&self) -> Seq<char> {
        self.stop@
    }

    /// Characters of the pattern matched so far.
    pub closed spec fn progress(&self) -> nat {
        self.index as nat
    }

    /// The progress counter, executably.
    pub fn position(&self) -> (r: usize)
        ensures
            r as nat == self.progress(),
    {
        self.index
    }

    /// Scans `text` one character at a time: a matching character advances
    /// the counter, a full match stops the scan, a mismatch resets the
    /// counter to zero.
    pub fn check(&mut self, text: &str) -> (r: StopTokenState)
        requires
            1 <= old(self).pattern().len(),
            old(self).progress() < old(self).pattern().len(),
        ensures
            final(self).pattern() == old(self).pattern(),
            match r {
                StopTokenState::Found => first_hit(
                    old(self).pattern(),
                    old(self).progress(),
                    text@,
                ) is Some && final(self).progress() == old(self).pattern().len(),
                StopTokenState::InProgress => first_hit(
                    old(self).pattern(),
                    old(self).progress(),
                    text@,
                ) is None && final(self).progress() == scan_counter(
                    old(self).pattern(),
                    old(self).progress(),
                    text@,
                ) && final(self).progress() < old(self).pattern().len(),
            },
    {
        let ghost p = old(self).pattern();
        let ghost k0 = old(self).progress();
        let n = text.unicode_len();
        let plen = self.stop.chars.len();
        let mut i: usize = 0;
        while i < n
            invariant
                self.stop == old(self).stop,
                p == self.stop@,
                k0 == old(self).progress(),
                n == text@.len(),
                plen == p.len(),
                1 <= plen,
                0 <= i <= n,
                first_hit(p, k0, text@.take(i as int)) is None,
                self.index as nat == scan_counter(p, k0, text@.take(i as int)),
                self.index < plen,
            decreases n - i,
        {
            let ghost pre = text@.take(i as int);
            let c = text.get_char(i);
            proof {
                assert(text@.take(i + 1 as int) =~= pre + seq![c]);
                lemma_scan_append(p, k0, pre, seq![c]);
                lemma_hit_append(p, k0, pre, seq![c]);
                lemma_single_char(p, scan_counter(p, k0, pre), c);
            }
            let pc = self.stop.chars[self.index];
            if pc != c {
                self.index = 0;
            } else {
                self.index = self.index + 1;
                if self.index == plen {
                    proof {
                        assert(first_hit(p, scan_counter(p, k0, pre), seq![c]) == Some(0int));
                        assert(first_hit(p, k0, text@.take(i + 1 as int)) is Some);
                        lemma_hit_append(p, k0, text@.take(i + 1 as int), text@.skip(i + 1 as int));
                        assert(text@.take(i + 1 as int) + text@.skip(i + 1 as int) =~= text@);
                    }
                    return StopTokenState::Found;
                }
            }
            i += 1;
        }
        proof {
            assert(text@.take(n as int) =~= text@);
        }
        StopTokenState::InProgress
    }
}

/// The patterns a token sequence holds.
pub open spec fn pattern_views(ts: Seq<StopToken>) -> Seq<Seq<char>> {
    ts.map_values(|t: StopToken| t@)
}

/// Progress counters as mathematical numbers.
pub open spec fn counter_views(ks: Seq<usize>) -> Seq<nat> {
    ks.map_values(|k: usize| k as nat)
}

/// The set of configured stop patterns with their persistent progress
/// counters.
pub struct StopManager {
    tokens: Vec<StopToken>,
    progress: Vec<usize>,
}

impl StopManager {
    /// The configured patterns.
    pub closed spec fn patterns(&self) -> Seq<Seq<char>> {
        pattern_views(self.tokens@)
    }

    /// The per-pattern progress counters.
    pub closed spec fn counters(&self) -> Seq<nat> {
        counter_views(self.progress@)
    }

    /// Every pattern is non-empty and every counter lies strictly inside
    /// its pattern.
    pub open spec fn wf(&self) -> bool {
        &&& self.patterns().len() == self.counters().len()
        &&& forall|i: int|
            0 <= i < self.patterns().len() ==> 1 <= #[trigger] self.patterns()[i].len()
        &&& forall|i: int|
            0 <= i < self.patterns().len() ==> #[trigger] self.counters()[i]
                < self.patterns()[i].len()
    }

    /// A manager with no patterns.
    pub fn new() -> (r: Self)
        ensures
            r.wf(),
            r.patterns() == Seq::<Seq<char>>::empty(),
            r.counters() == Seq::<nat>::empty(),
    {
        let r = StopManager { tokens: Vec::new(), progress: Vec::new() };
        proof {
            assert(r.patterns() =~= Seq::<Seq<char>>::empty());
            assert(r.counters() =~= Seq::<nat>::empty());
        }
        r
    }

    /// Adds a pattern with a fresh counter.
    pub fn add_stop(&mut self, stop: StopToken)
        requires
            old(self).wf(),
            1 <= stop@.len(),
        ensures
            final(self).wf(),
            final(self).patterns() == old(self).patterns().push(stop@),
            final(self).counters() == old(self).counters().push(0nat),
    {
        self.tokens.push(stop);
        self.progress.push(0);
        proof {
            assert(final(self).patterns() =~= old(self).patterns().push(stop@));
            assert(final(self).counters() =~= old(self).counters().push(0nat));
        }
    }

    /// Adds a pattern given as a string.
    pub fn add_stop_from_string(&mut self, stop: &str)
        requires
            old(self).wf(),
            1 <= stop@.len(),
        ensures
            final(self).wf(),
            final(self).patterns() == old(self).patterns().push(stop@),
            final(self).counters() == old(self).counters().push(0nat),
    {
        self.add_stop(StopToken::new(String::from_str(stop)));
    }

    /// Resets every counter, as on a session boundary.
    pub fn reset(&mut self)
        requires
            old(self).wf(),
        ensures
            final(self).wf(),
            final(self).patterns() == old(self).patterns(),
            final(self).counters() == Seq::new(old(self).counters().len(), |i: int| 0nat),
    {
        let n = self.progress.len();
        let mut z: Vec<usize> = Vec::new();
        let mut i: usize = 0;
        while i < n
            invariant
                0 <= i <= n,
                z@.len() == i,
                forall|j: int| 0 <= j < i ==> z@[j] == 0usize,
            decreases n - i,
        {
            z.push(0);
            i += 1;
        }
        self.progress = z;
        proof {
            assert(final(self).counters() =~= Seq::new(old(self).counters().len(), |i: int| 0nat));
        }
    }

    /// Runs every pattern's cursor over `text`.  Returns whether some
    /// pattern completed a full match; on a match all counters reset,
    /// otherwise each advances to its scan result.  The truncating form
    /// of matching — which also identifies where the match began, so the
    /// caller can cut the fragment exactly there — is `StopFilter::feed`.
    pub fn check(&mut self, text: &str) -> (r: bool)
        requires
            old(self).wf(),
        ensures
            final(self).wf(),
            final(self).patterns() == old(self).patterns(),
            r == exists|i: int|
                0 <= i < old(self).patterns().len() && first_hit(
                    #[trigger] old(self).patterns()[i],
                    old(self).counters()[i],
                    text@,
                ) is Some,
            r ==> final(self).counters() == Seq::new(old(self).counters().len(), |i: int| 0nat),
            !r ==> final(self).counters() == Seq::new(
                old(self).counters().len(),
                |i: int| scan_counter(old(self).patterns()[i], old(self).counters()[i], text@),
            ),
    {
        let ghost ps = old(self).patterns();
        let ghost ks = old(self).counters();
        let n = self.tokens.len();
        let mut updated: Vec<usize> = Vec::new();
        let mut i: usize = 0;
        while i < n
            invariant
                self.tokens@ == old(self).tokens@,
                self.progress@ == old(self).progress@,
                ps == self.patterns(),
                ks == self.counters(),
                self.wf(),
                n == self.tokens@.len(),
                0 <= i <= n,
                updated@.len() == i,
                forall|j: int| 0 <= j < i ==> first_hit(ps[j], ks[j], text@) is None,
                forall|j: int|
                    0 <= j < i ==> #[trigger] updated@[j] as nat == scan_counter(
                        ps[j],
                        ks[j],
                        text@,
                    ),
            decreases n - i,
        {
            let cur = self.progress[i];
            proof {
                assert(self.counters()[i as int] == self.progress@[i as int] as nat);
                assert(self.patterns()[i as int] == self.tokens@[i as int]@);
            }
            let mut insp = self.tokens[i].inspect_from(cur);
            match insp.check(text) {
                StopTokenState::Found => {
                    proof {
                        assert(first_hit(ps[i as int], ks[i as int], text@) is Some);
                    }
                    self.reset();
                    return true;
                },
                StopTokenState::InProgress => {
                    let np = insp.position();
                    updated.push(np);
                },
            }
            i += 1;
        }
        self.progress = updated;
        proof {
            assert forall|j: int| 0 <= j < ps.len() implies scan_counter(ps[j], ks[j], text@)
                < ps[j].len() by {
                lemma_no_hit_counter(ps[j], ks[j], text@);
            }
            assert(final(self).counters() =~= Seq::new(
                ks.len(),
                |i: int| scan_counter(ps[i], ks[i], text@),
            ));
            assert(final(self).patterns() =~= ps);
        }
        false
    }
}

/// A sequence of zero counters.
pub open spec fn zeros(n: nat) -> Seq<nat> {
    Seq::new(n, |i: int| 0nat)
}

/// One matching step for every pattern at once.
pub open spec fn step_all(ps: Seq<Seq<char>>, ks: Seq<nat>, c: char) -> Seq<nat> {
    Seq::new(ks.len(), |i: int| stop_step(ps[i], ks[i], c))
}

/// The first pattern at or after `from` that `c` completes, if any.
pub open spec fn first_completed(ps: Seq<Seq<char>>, ks: Seq<nat>, c: char, from: int) -> Option<
    int,
>
    decreases ps.len() - from,
{
    if from < 0 || from >= ps.len() {
        None
    } else if 1 <= ps[from].len() && stop_step(ps[from], ks[from], c) == ps[from].len() {
        Some(from)
    } else {
        first_completed(ps, ks, c, from + 1)
    }
}

/// Scanning all patterns over `t`: the character index at which the first
/// full match completes and the winning pattern, if any.
pub open spec fn multi_hit(ps: Seq<Seq<char>>, ks: Seq<nat>, t: Seq<char>) -> Option<(int, int)>
    decreases t.len(),
{
    if t.len() == 0 {
        None
    } else {
        match first_completed(ps, ks, t[0], 0) {
            Some(w) => Some((0int, w)),
            None => match multi_hit(ps, step_all(ps, ks, t[0]), t.drop_first()) {
                Some(jw) => Some((jw.0 + 1, jw.1)),
                None => None,
            },
        }
    }
}

/// All counters after scanning `t`.
pub open spec fn scan_all(ps: Seq<Seq<char>>, ks: Seq<nat>, t: Seq<char>) -> Seq<nat>
    decreases t.len(),
{
    if t.len() == 0 {
        ks
    } else {
        scan_all(ps, step_all(ps, ks, t[0]), t.drop_first())
    }
}

/// The largest counter (zero when there are none).
pub open spec fn max_counter(ks: Seq<nat>) -> nat
    decreases ks.len(),
{
    if ks.len() == 0 {
        0
    } else if ks[0] >= max_counter(ks.drop_first()) {
        ks[0]
    } else {
        max_counter(ks.drop_first())
    }
}

/// The largest counter bounds every counter and is attained (or zero).
pub proof fn lemma_max_counter(ks: Seq<nat>)
    ensures
        forall|i: int| 0 <= i < ks.len() ==> #[trigger] ks[i] <= max_counter(ks),
        max_counter(ks) == 0 || exists|i: int| 0 <= i < ks.len() && ks[i] == max_counter(ks),
    decreases ks.len(),
{
    if ks.len() == 0 {
    } else {
        lemma_max_counter(ks.drop_first());
        assert forall|i: int| 0 <= i < ks.len() implies #[trigger] ks[i] <= max_counter(ks) by {
            if i >= 1 {
                assert(ks[i] == ks.drop_first()[i - 1]);
            }
        }
        if max_counter(ks) != 0 {
            if ks[0] >= max_counter(ks.drop_first()) {
                assert(ks[0] == max_counter(ks));
            } else {
                let j = choose|j: int|
                    0 <= j < ks.drop_first().len() && ks.drop_first()[j] == max_counter(
                        ks.drop_first(),
                    );
                assert(ks[j + 1] == max_counter(ks));
            }
        }
    }
}

/// Joint scanning splits over concatenation.
pub proof fn lemma_scan_all_append(ps: Seq<Seq<char>>, ks: Seq<nat>, a: Seq<char>, b: Seq<char>)
    ensures
        scan_all(ps, ks, a + b) == scan_all(ps, scan_all(ps, ks, a), b),
    decreases a.len(),
{
    if a.len() == 0 {
        assert(a + b =~= b);
    } else {
        assert((a + b).drop_first() =~= a.drop_first() + b);
        lemma_scan_all_append(ps, step_all(ps, ks, a[0]), a.drop_first(), b);
    }
}

/// Joint match detection splits over concatenation.
pub proof fn lemma_multi_hit_append(ps: Seq<Seq<char>>, ks: Seq<nat>, a: Seq<char>, b: Seq<char>)
    ensures
        multi_hit(ps, ks, a + b) == match multi_hit(ps, ks, a) {
            Some(jw) => Some(jw),
            None => match multi_hit(ps, scan_all(ps, ks, a), b) {
                Some(jw) => Some((jw.0 + a.len(), jw.1)),
                None => None::<(int, int)>,
            },
        },
    decreases a.len(),
{
    if a.len() == 0 {
        assert(a + b =~= b);
    } else {
        assert((a + b).drop_first() =~= a.drop_first() + b);
        lemma_multi_hit_append(ps, step_all(ps, ks, a[0]), a.drop_first(), b);
    }
}

/// Joint scanning of one character is one joint step.
pub proof fn lemma_multi_single(ps: Seq<Seq<char>>, ks: Seq<nat>, c: char)
    ensures
        scan_all(ps, ks, seq![c]) == step_all(ps, ks, c),
        multi_hit(ps, ks, seq![c]) == match first_completed(ps, ks, c, 0) {
            Some(w) => Some((0int, w)),
            None => None::<(int, int)>,
        },
{
    assert(seq![c].drop_first() =~= Seq::<char>::empty());
    assert(seq![c][0] == c);
    assert(scan_all(ps, step_all(ps, ks, c), Seq::<char>::empty()) == step_all(ps, ks, c));
    assert(multi_hit(ps, step_all(ps, ks, c), Seq::<char>::empty()) is None);
}

/// Each pattern's counter evolves independently under joint scanning.
pub proof fn lemma_scan_all_index(ps: Seq<Seq<char>>, ks: Seq<nat>, t: Seq<char>, i: int)
    requires
        0 <= i < ks.len(),
        ps.len() == ks.len(),
    ensures
        scan_all(ps, ks, t)[i] == scan_counter(ps[i], ks[i], t),
        scan_all(ps, ks, t).len() == ks.len(),
    decreases t.len(),
{
    if t.len() == 0 {
    } else {
        lemma_scan_all_index(ps, step_all(ps, ks, t[0]), t.drop_first(), i);
    }
}

/// If no earlier pattern is completed by `c`, the search may start later.
proof fn lemma_first_completed_skip(ps: Seq<Seq<char>>, ks: Seq<nat>, c: char, upto: int)
    requires
        0 <= upto <= ps.len(),
        forall|i: int|
            0 <= i < upto ==> !(1 <= ps[i].len() && stop_step(#[trigger] ps[i], ks[i], c)
                == ps[i].len()),
    ensures
        first_completed(ps, ks, c, 0) == first_completed(ps, ks, c, upto),
    decreases upto,
{
    if upto > 0 {
        lemma_first_completed_skip(ps, ks, c, upto - 1);
    }
}

/// Ghost state of a stop filter: the counters and the held-back text.
pub struct FilterState {
    pub counters: Seq<nat>,
    pub held: Seq<char>,
}

/// What one call of `StopFilter::feed` does, as a mathematical function:
/// the new state, the text passed on, and whether a stop matched.
///
/// On a match the passed text ends exactly before the first character of
/// the match; otherwise everything but the current partial matches is
/// passed on and the partial matches are held back.
pub open spec fn feed_model(ps: Seq<Seq<char>>, st: FilterState, t: Seq<char>) -> (
    FilterState,
    Seq<char>,
    bool,
) {
    let total = st.held + t;
    match multi_hit(ps, st.counters, t) {
        Some(jw) => (
            FilterState { counters: zeros(ps.len() as nat), held: Seq::empty() },
            total.take(st.held.len() + jw.0 + 1 - ps[jw.1].len()),
            true,
        ),
        None => {
            let ks2 = scan_all(ps, st.counters, t);
            let m = max_counter(ks2);
            (
                FilterState { counters: ks2, held: total.skip(total.len() - m) },
                total.take(total.len() - m),
                false,
            )
        },
    }
}

/// Applies the stop patterns to the fragment stream and truncates it at a
/// match, holding back text that is a partial match of some pattern so
/// that nothing of a matched stop sequence is ever passed on.
pub struct StopFilter {
    tokens: Vec<StopToken>,
    progress: Vec<usize>,
    held: Vec<char>,
}

impl StopFilter {
    /// The configured patterns.
    pub closed spec fn patterns(&self) -> Seq<Seq<char>> {
        pattern_views(self.tokens@)
    }

    /// The current ghost state.
    pub closed spec fn state(&self) -> FilterState {
        FilterState { counters: counter_views(self.progress@), held: self.held@ }
    }

    pub open spec fn wf(&self) -> bool {
        &&& self.patterns().len() == self.state().counters.len()
        &&& forall|i: int|
            0 <= i < self.patterns().len() ==> 1 <= #[trigger] self.patterns()[i].len()
        &&& forall|i: int|
            0 <= i < self.patterns().len() ==> #[trigger] self.state().counters[i]
                < self.patterns()[i].len()
        &&& self.state().held.len() == max_counter(self.state().counters)
    }

    /// A filter with no patterns.
    pub fn new() -> (r: Self)
        ensures
            r.wf(),
            r.patterns() == Seq::<Seq<char>>::empty(),
            r.state().counters == Seq::<nat>::empty(),
            r.state().held == Seq::<char>::empty(),
    {
        let r = StopFilter { tokens: Vec::new(), progress: Vec::new(), held: Vec::new() };
        proof {
            assert(r.patterns() =~= Seq::<Seq<char>>::empty());
            assert(r.state().counters =~= Seq::<nat>::empty());
            assert(r.state().held =~= Seq::<char>::empty());
        }
        r
    }

    /// Adds a pattern with a fresh counter.
    pub fn add_stop(&mut self, stop: StopToken)
        requires
            old(self).wf(),
            1 <= stop@.len(),
        ensures
            final(self).wf(),
            final(self).patterns() == old(self).patterns().push(stop@),
            final(self).state().counters == old(self).state().counters.push(0nat),
            final(self).state().held == old(self).state().held,
    {
        self.tokens.push(stop);
        self.progress.push(0);
        proof {
            assert(final(self).patterns() =~= old(self).patterns().push(stop@));
            assert(final(self).state().counters =~= old(self).state().counters.push(0nat));
            let ks = old(self).state().counters;
            lemma_max_push_zero(ks);
        }
    }

    /// Feeds a fragment through the filter; see `feed_model`.
    pub fn feed(&mut self, text: &str) -> (r: (String, bool))
        requires
            old(self).wf(),
        ensures
            final(self).wf(),
            final(self).patterns() == old(self).patterns(),
            ({
                let fm = feed_model(old(self).patterns(), old(self).state(), text@);
                &&& final(self).state() == fm.0
                &&& r.0@ == fm.1
                &&& r.1 == fm.2
            }),
    {
        let ghost ps = old(self).patterns();
        let ghost ks0 = old(self).state().counters;
        let ghost t = text@;
        let tchars = crate::token::str_to_chars(text);
        let n = tchars.len();
        let npat = self.tokens.len();
        let mut total = crate::token::vec_slice_copy(&self.held, 0, self.held.len());
        let mut ti: usize = 0;
        while ti < n
            invariant
                0 <= ti <= n,
                n == tchars@.len(),
                total@ == self.held@ + tchars@.take(ti as int),
                self == old(self),
            decreases n - ti,
        {
            total.push(tchars[ti]);
            ti += 1;
            proof {
                assert(total@ =~= self.held@ + tchars@.take(ti as int));
            }
        }
        proof {
            assert(self.held@.subrange(0, self.held@.len() as int) =~= self.held@);
            assert(total@ =~= old(self).state().held + t);
        }
        let mut cur = crate::token::vec_slice_copy(&self.progress, 0, self.progress.len());
        proof {
            assert(self.progress@.subrange(0, self.progress@.len() as int) =~= self.progress@);
            assert(t.take(0) =~= Seq::<char>::empty());
            assert(counter_views(cur@) =~= scan_all(ps, ks0, t.take(0)));
            assert forall|i: int| 0 <= i < ps.len() implies (#[trigger] cur@[i] as nat)
                < ps[i].len() by {
                assert(old(self).state().counters[i] == self.progress@[i] as nat);
            }
        }
        let mut j: usize = 0;
        while j < n
            invariant
                old(self).wf(),
                self == old(self),
                ps == old(self).patterns(),
                ks0 == old(self).state().counters,
                t == text@,
                tchars@ == t,
                n == t.len(),
                npat == ps.len(),
                total@ == old(self).state().held + t,
                0 <= j <= n,
                cur@.len() == npat,
                multi_hit(ps, ks0, t.take(j as int)) is None,
                counter_views(cur@) == scan_all(ps, ks0, t.take(j as int)),
                forall|i: int|
                    0 <= i < npat ==> (#[trigger] cur@[i] as nat) < ps[i].len(),
            decreases n - j,
        {
            let c = tchars[j];
            let ghost pre = t.take(j as int);
            proof {
                assert(t.take(j + 1 as int) =~= pre + seq![c]);
                lemma_scan_all_append(ps, ks0, pre, seq![c]);
                lemma_multi_hit_append(ps, ks0, pre, seq![c]);
                lemma_multi_single(ps, counter_views(cur@), c);
            }
            match self.advance_counters(&mut cur, c) {
                Some(w) => {
                    let ghost ksj = scan_all(ps, ks0, pre);
                    proof {
                        assert(multi_hit(ps, ks0, t.take(j + 1 as int)) == Some((j as int, w as int)));
                        lemma_multi_hit_append(ps, ks0, t.take(j + 1 as int), t.skip(j + 1 as int));
                        assert(t.take(j + 1 as int) + t.skip(j + 1 as int) =~= t);
                        assert(multi_hit(ps, ks0, t) == Some((j as int, w as int)));
                        lemma_scan_all_index(ps, ks0, pre, w as int);
                        lemma_scan_le(ps[w as int], ks0[w as int], pre);
                        lemma_max_counter(ks0);
                        assert(ksj[w as int] <= old(self).state().held.len() + j);
                        assert(ps[w as int].len() == ksj[w as int] + 1);
                    }
                    let wlen = self.tokens[w].length();
                    let tlen = total.len();
                    proof {
                        assert(ps[w as int] == self.tokens@[w as int]@);
                        assert(tlen as int == self.held@.len() + n);
                        assert(self.held@.len() + j + 1 <= tlen);
                    }
                    let keep = self.held.len() + j + 1 - wlen;
                    let pass_chars = crate::token::vec_slice_copy(&total, 0, keep);
                    let pass = crate::token::chars_to_string(&pass_chars);
                    self.zero_progress();
                    self.held = Vec::new();
                    proof {
                        assert(pass@ =~= (old(self).state().held + t).take(
                            old(self).state().held.len() + j + 1 - ps[w as int].len(),
                        ));
                        assert(final(self).state().held =~= Seq::<char>::empty());
                        assert(final(self).state().counters =~= zeros(ps.len() as nat));
                        lemma_max_zeros(ps.len() as nat);
                        assert(final(self).patterns() =~= ps);
                    }
                    return (pass, true);
                },
                None => {},
            }
            j += 1;
        }
        proof {
            assert(t.take(n as int) =~= t);
        }
        let m = max_progress(&cur);
        proof {
            let ks2 = scan_all(ps, ks0, t);
            assert forall|i: int| 0 <= i < npat implies #[trigger] ks2[i] <= total@.len() by {
                lemma_scan_all_index(ps, ks0, t, i);
                lemma_scan_le(ps[i], ks0[i], t);
                lemma_max_counter(ks0);
            }
            lemma_max_counter(ks2);
        }
        let cut = total.len() - m;
        let pass_chars = crate::token::vec_slice_copy(&total, 0, cut);
        let pass = crate::token::chars_to_string(&pass_chars);
        let new_held = crate::token::vec_slice_copy(&total, cut, total.len());
        self.progress = cur;
        self.held = new_held;
        proof {
            let ks2 = scan_all(ps, ks0, t);
            assert(final(self).state().counters == ks2);
            assert(pass@ =~= (old(self).state().held + t).take(total@.len() - max_counter(ks2)));
            assert(final(self).state().held =~= (old(self).state().held + t).skip(
                total@.len() - max_counter(ks2),
            ));
            assert(final(self).patterns() =~= ps);
        }
        (pass, false)
    }

    /// At session end, passes on whatever was held back and resets.
    pub fn flush(&mut self) -> (r: String)
        requires
            old(self).wf(),
        ensures
            final(self).wf(),
            final(self).patterns() == old(self).patterns(),
            r@ == old(self).state().held,
            final(self).state().counters == zeros(old(self).patterns().len() as nat),
            final(self).state().held == Seq::<char>::empty(),
    {
        let r = crate::token::chars_to_string(&self.held);
        self.zero_progress();
        self.held = Vec::new();
        proof {
            assert(final(self).state().counters =~= zeros(old(self).patterns().len() as nat));
            assert(final(self).state().held =~= Seq::<char>::empty());
            assert(final(self).patterns() =~= old(self).patterns());
            lemma_max_zeros(old(self).patterns().len() as nat);
        }
        r
    }

    /// Steps every counter by `c`; returns the first completed pattern, if
    /// any, leaving the counters to the caller in that case.
    fn advance_counters(&self, cur: &mut Vec<usize>, c: char) -> (r: Option<usize>)
        requires
            old(cur)@.len() == self.patterns().len(),
            forall|i: int|
                0 <= i < self.patterns().len() ==> 1 <= #[trigger] self.patterns()[i].len(),
            forall|i: int|
                0 <= i < self.patterns().len() ==> (#[trigger] old(cur)@[i] as nat)
                    < self.patterns()[i].len(),
        ensures
            match r {
                Some(w) => first_completed(
                    self.patterns(),
                    counter_views(old(cur)@),
                    c,
                    0,
                ) == Some(w as int) && 0 <= w < self.patterns().len() && stop_step(
                    self.patterns()[w as int],
                    counter_views(old(cur)@)[w as int],
                    c,
                ) == self.patterns()[w as int].len(),
                None => {
                    &&& first_completed(self.patterns(), counter_views(old(cur)@), c, 0) is None
                    &&& counter_views(final(cur)@) == step_all(
                        self.patterns(),
                        counter_views(old(cur)@),
                        c,
                    )
                    &&& final(cur)@.len() == old(cur)@.len()
                    &&& forall|i: int|
                        0 <= i < self.patterns().len() ==> (#[trigger] final(cur)@[i] as nat)
                            < self.patterns()[i].len()
                },
            },
    {
        let ghost ps = self.patterns();
        let ghost ks = counter_views(old(cur)@);
        let n = self.tokens.len();
        proof {
            assert(ps.len() == self.tokens@.len());
        }
        let mut next: Vec<usize> = Vec::new();
        let mut i: usize = 0;
        while i < n
            invariant
                cur@ == old(cur)@,
                ps == self.patterns(),
                ks == counter_views(cur@),
                n == ps.len(),
                cur@.len() == n,
                forall|ii: int| 0 <= ii < n ==> 1 <= #[trigger] ps[ii].len(),
                forall|ii: int| 0 <= ii < n ==> (#[trigger] cur@[ii] as nat) < ps[ii].len(),
                0 <= i <= n,
                next@.len() == i,
                forall|ii: int|
                    0 <= ii < i ==> !(1 <= ps[ii].len() && stop_step(
                        #[trigger] ps[ii],
                        ks[ii],
                        c,
                    ) == ps[ii].len()),
                forall|ii: int|
                    0 <= ii < i ==> (#[trigger] next@[ii] as nat) == stop_step(ps[ii], ks[ii], c)
                        && (next@[ii] as nat) < ps[ii].len(),
            decreases n - i,
        {
            proof {
                assert(ps[i as int] == self.tokens@[i as int]@);
                assert(ks[i as int] == cur@[i as int] as nat);
            }
            let k = cur[i];
            let tok = &self.tokens[i];
            let plen_i = tok.chars.len();
            let step = if tok.chars[k] == c {
                k + 1
            } else {
                0
            };
            if step == plen_i {
                proof {
                    lemma_first_completed_skip(ps, ks, c, i as int);
                }
                return Some(i);
            }
            next.push(step);
            i += 1;
        }
        proof {
            lemma_first_completed_skip(ps, ks, c, n as int);
            assert(counter_views(next@) =~= step_all(ps, ks, c));
        }
        *cur = next;
        None
    }

    /// Resets every counter to zero.
    fn zero_progress(&mut self)
        ensures
            final(self).tokens@ == old(self).tokens@,
            final(self).held@ == old(self).held@,
            final(self).progress@.len() == old(self).tokens@.len(),
            forall|i: int|
                0 <= i < final(self).progress@.len() ==> (#[trigger] final(self).progress@[i])
                    == 0usize,
    {
        let n = self.tokens.len();
        let mut z: Vec<usize> = Vec::new();
        let mut i: usize = 0;
        while i < n
            invariant
                0 <= i <= n,
                z@.len() == i,
                forall|j: int| 0 <= j < i ==> (#[trigger] z@[j]) == 0usize,
            decreases n - i,
        {
            z.push(0);
            i += 1;
        }
        self.progress = z;
    }
}

impl StopToken {
    /// Pattern length in characters.
    pub fn length(&self) -> (r: usize)
        ensures
            r as nat == self@.len(),
    {
        self.chars.len()
    }
}

/// Every counter of `zeros` is zero, so the largest is zero.
pub proof fn lemma_max_zeros(n: nat)
    ensures
        max_counter(zeros(n)) == 0,
    decreases n,
{
    if n > 0 {
        assert(zeros(n).drop_first() =~= zeros((n - 1) as nat));
        lemma_max_zeros((n - 1) as nat);
    }
}

/// Appending a zero counter leaves the largest counter unchanged.
pub proof fn lemma_max_push_zero(ks: Seq<nat>)
    ensures
        max_counter(ks.push(0nat)) == max_counter(ks),
    decreases ks.len(),
{
    if ks.len() == 0 {
        assert(ks.push(0nat) =~= seq![0nat]);
        assert(seq![0nat].drop_first() =~= Seq::<nat>::empty());
        assert(max_counter(Seq::<nat>::empty()) == 0);
        assert(max_counter(seq![0nat]) == 0);
    } else {
        assert(ks.push(0nat).drop_first() =~= ks.drop_first().push(0nat));
        lemma_max_push_zero(ks.drop_first());
        assert(ks.push(0nat)[0] == ks[0]);
    }
}

/// Scanning a pattern against its own slice `p[a..b]` from counter `a`
/// climbs to `b` without a premature full match, and completes exactly at
/// the last character when `b` is the pattern's end.
pub proof fn lemma_self_scan(p: Seq<char>, a: int, b: int)
    requires
        1 <= p.len(),
        0 <= a <= b <= p.len(),
    ensures
        b < p.len() ==> first_hit(p, a as nat, p.subrange(a, b)) is None && scan_counter(
            p,
            a as nat,
            p.subrange(a, b),
        ) == b as nat,
        b == p.len() && a < b ==> first_hit(p, a as nat, p.subrange(a, b)) == Some(b - a - 1),
    decreases b - a,
{
    if a == b {
        assert(p.subrange(a, b) =~= Seq::<char>::empty());
    } else {
        let t = p.subrange(a, b);
        assert(t[0] == p[a]);
        assert(stop_step(p, a as nat, p[a]) == a + 1);
        assert(t.drop_first() =~= p.subrange(a + 1, b));
        if a + 1 == p.len() {
            assert(b == p.len());
        } else {
            lemma_self_scan(p, a + 1, b);
        }
    }
}

/// Restricted to a single pattern, joint scanning is single-pattern
/// scanning.
pub proof fn lemma_multi_of_single(p: Seq<char>, k: nat, t: Seq<char>)
    ensures
        scan_all(seq![p], seq![k], t) == seq![scan_counter(p, k, t)],
        multi_hit(seq![p], seq![k], t) == match first_hit(p, k, t) {
            Some(j) => Some((j, 0int)),
            None => None::<(int, int)>,
        },
    decreases t.len(),
{
    if t.len() == 0 {
        assert(scan_all(seq![p], seq![k], t) =~= seq![scan_counter(p, k, t)]);
    } else {
        let c = t[0];
        assert(step_all(seq![p], seq![k], c) =~= seq![stop_step(p, k, c)]);
        assert(first_completed(seq![p], seq![k], c, 1) is None);
        lemma_multi_of_single(p, stop_step(p, k, c), t.drop_first());
    }
}

/// A stop sequence split across two fragments at any split point is still
/// detected, and nothing of the sequence is ever passed on: feeding its
/// two halves to a fresh filter passes on no text and reports the match,
/// in the first call when the split is at the end, in the second call
/// otherwise.
pub proof fn lemma_stop_split_detected(p: Seq<char>, i: int)
    requires
        1 <= p.len(),
        0 <= i <= p.len(),
    ensures
        ({
            let ps = seq![p];
            let st0 = FilterState { counters: seq![0nat], held: Seq::<char>::empty() };
            let r1 = feed_model(ps, st0, p.take(i));
            let r2 = feed_model(ps, r1.0, p.skip(i));
            &&& r1.1 == Seq::<char>::empty()
            &&& (i == p.len() ==> r1.2)
            &&& (i < p.len() ==> !r1.2 && r2.2 && r2.1 == Seq::<char>::empty())
        }),
{
    let ps = seq![p];
    let st0 = FilterState { counters: seq![0nat], held: Seq::<char>::empty() };
    let t1 = p.take(i);
    let t2 = p.skip(i);
    assert(t1 =~= p.subrange(0, i));
    assert(t2 =~= p.subrange(i, p.len() as int));
    lemma_self_scan(p, 0, i);
    lemma_multi_of_single(p, 0nat, t1);
    let r1 = feed_model(ps, st0, t1);
    if i == p.len() {
        assert(first_hit(p, 0nat, t1) == Some(i - 1));
        assert(multi_hit(ps, seq![0nat], t1) == Some((i - 1, 0int)));
        assert(st0.held + t1 =~= t1);
        assert(r1.1 =~= t1.take(0 + (i - 1) + 1 - p.len()));
        assert(r1.1 =~= Seq::<char>::empty());
    } else {
        assert(first_hit(p, 0nat, t1) is None);
        assert(scan_counter(p, 0nat, t1) == i as nat);
        assert(multi_hit(ps, seq![0nat], t1) is None);
        assert(scan_all(ps, seq![0nat], t1) == seq![i as nat]);
        assert(seq![i as nat].drop_first() =~= Seq::<nat>::empty());
        assert(max_counter(Seq::<nat>::empty()) == 0);
        assert(max_counter(seq![i as nat]) == i as nat);
        assert(st0.held + t1 =~= t1);
        assert(r1.1 =~= t1.take(t1.len() - i));
        assert(r1.1 =~= Seq::<char>::empty());
        assert(r1.0.held =~= t1);
        assert(r1.0.counters == seq![i as nat]);
        lemma_self_scan(p, i, p.len() as int);
        lemma_multi_of_single(p, i as nat, t2);
        assert(first_hit(p, i as nat, t2) == Some(p.len() - i - 1));
        assert(multi_hit(ps, seq![i as nat], t2) == Some((p.len() - i - 1, 0int)));
        let r2 = feed_model(ps, r1.0, t2);
        assert(r2.2);
        assert(r2.1 =~= (t1 + t2).take(i + (p.len() - i - 1) + 1 - p.len()));
        assert(r2.1 =~= Seq::<char>::empty());
    }
}

/// The largest counter, executably.
fn max_progress(progress: &Vec<usize>) -> (r: usize)
    ensures
        r as nat == max_counter(counter_views(progress@)),
{
    let ghost ks = counter_views(progress@);
    let n = progress.len();
    let mut m: usize = 0;
    let mut i: usize = 0;
    while i < n
        invariant
            ks == counter_views(progress@),
            n == ks.len(),
            0 <= i <= n,
            forall|j: int| 0 <= j < i ==> #[trigger] ks[j] <= m as nat,
            m == 0 || exists|j: int| 0 <= j < i && ks[j] == m as nat,
        decreases n - i,
    {
        if progress[i] > m {
            m = progress[i];
            proof {
                assert(ks[i as int] == m as nat);
            }
        }
        i += 1;
    }
    proof {
        lemma_max_counter(ks);
        if m as nat != max_counter(ks) {
            if m == 0 {
                assert(max_counter(ks) != 0);
                let j = choose|j: int| 0 <= j < ks.len() && ks[j] == max_counter(ks);
                assert(ks[j] <= m as nat);
            } else {
                let j = choose|j: int| 0 <= j < n && ks[j] == m as nat;
                assert(ks[j] <= max_counter(ks));
                if max_counter(ks) != 0 {
                    let j2 = choose|j2: int| 0 <= j2 < ks.len() && ks[j2] == max_counter(ks);
                    assert(ks[j2] <= m as nat);
                }
            }
        }
    }
    m
}

} // verus!
