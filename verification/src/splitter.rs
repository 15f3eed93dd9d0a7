//! Frame splitting: a raw byte stream arrives in arbitrary chunks and is cut
//! into frames bounded by a fixed delimiter.
//!
//! The splitter owns a carry buffer holding the bytes after the last complete
//! delimiter seen so far, so a delimiter split across two chunks is still
//! found and never produces a false split.

use vstd::prelude::*;

use crate::token::vec_slice_copy;

verus! {

/// The delimiter `d` occurs in `s` at position `i`.
pub open spec fn is_delim_at(s: Seq<u8>, d: Seq<u8>, i: int) -> bool {
    0 <= i && i + d.len() <= s.len() && s.subrange(i, i + d.len() as int) == d
}

/// Position of the leftmost occurrence of `d` in `s`, if any.
pub open spec fn first_delim(s: Seq<u8>, d: Seq<u8>) -> Option<int>
    decreases s.len(),
{
    if s.len() < d.len() {
        None
    } else if s.subrange(0, d.len() as int) == d {
        Some(0)
    } else if s.len() == 0 {
        None
    } else {
        match first_delim(s.drop_first(), d) {
            Some(i) => Some(i + 1),
            None => None,
        }
    }
}

/// A leftmost occurrence lies within bounds and matches the delimiter.
pub proof fn lemma_first_delim_bounds(s: Seq<u8>, d: Seq<u8>)
    requires
        first_delim(s, d) is Some,
    ensures
        0 <= first_delim(s, d)->Some_0,
        first_delim(s, d)->Some_0 + d.len() <= s.len(),
        is_delim_at(s, d, first_delim(s, d)->Some_0),
    decreases s.len(),
{
    if s.len() < d.len() {
    } else if s.subrange(0, d.len() as int) == d {
    } else if s.len() == 0 {
    } else {
        let i = first_delim(s, d)->Some_0;
        lemma_first_delim_bounds(s.drop_first(), d);
        assert(s.drop_first().subrange(i - 1, i - 1 + d.len()) =~= s.subrange(
            i,
            i + d.len() as int,
        ));
    }
}

/// `first_delim` returns exactly the minimal occurrence position.
pub proof fn lemma_first_delim_iff(s: Seq<u8>, d: Seq<u8>, i: int)
    requires
        1 <= d.len(),
    ensures
        first_delim(s, d) == Some(i) <==> (is_delim_at(s, d, i) && (forall|j: int|
            0 <= j < i ==> !is_delim_at(s, d, j))),
    decreases s.len(),
{
    if s.len() < d.len() {
        assert(forall|k: int| !is_delim_at(s, d, k));
    } else if s.subrange(0, d.len() as int) == d {
        assert(is_delim_at(s, d, 0));
    } else if s.len() == 0 {
        assert(forall|k: int| !is_delim_at(s, d, k));
    } else {
        assert(!is_delim_at(s, d, 0));
        lemma_first_delim_iff(s.drop_first(), d, i - 1);
        assert forall|k: int| 1 <= k implies (is_delim_at(s, d, k) <==> is_delim_at(
            s.drop_first(),
            d,
            k - 1,
        )) by {
            if 0 <= k - 1 && k - 1 + d.len() <= s.drop_first().len() {
                assert(s.drop_first().subrange(k - 1, k - 1 + d.len()) =~= s.subrange(
                    k,
                    k + d.len() as int,
                ));
            }
        }
        if first_delim(s, d) == Some(i) {
            assert(first_delim(s.drop_first(), d) == Some(i - 1));
            assert(is_delim_at(s, d, i));
            assert forall|j: int| 0 <= j < i implies !is_delim_at(s, d, j) by {
                if j != 0 {
                    assert(!is_delim_at(s.drop_first(), d, j - 1));
                }
            }
        }
        if is_delim_at(s, d, i) && (forall|j: int| 0 <= j < i ==> !is_delim_at(s, d, j)) {
            assert(i != 0);
            assert(is_delim_at(s.drop_first(), d, i - 1));
            assert forall|j: int| 0 <= j < i - 1 implies !is_delim_at(s.drop_first(), d, j) by {
                assert(!is_delim_at(s, d, j + 1));
            }
            assert(first_delim(s.drop_first(), d) == Some(i - 1));
        }
    }
}

/// Frames before each delimiter occurrence, scanning left to right.
pub open spec fn split_frames(s: Seq<u8>, d: Seq<u8>) -> Seq<Seq<u8>>
    decreases s.len(),
        when 1 <= d.len()
        via split_frames_decreases
{
    match first_delim(s, d) {
        None => Seq::empty(),
        Some(i) => seq![s.subrange(0, i)] + split_frames(
            s.subrange(i + d.len() as int, s.len() as int),
            d,
        ),
    }
}

#[via_fn]
proof fn split_frames_decreases(s: Seq<u8>, d: Seq<u8>) {
    if first_delim(s, d) is Some {
        lemma_first_delim_bounds(s, d);
    }
}

/// The remainder after the last delimiter occurrence consumed by
/// `split_frames`.
pub open spec fn split_carry(s: Seq<u8>, d: Seq<u8>) -> Seq<u8>
    decreases s.len(),
        when 1 <= d.len()
        via split_carry_decreases
{
    match first_delim(s, d) {
        None => s,
        Some(i) => split_carry(s.subrange(i + d.len() as int, s.len() as int), d),
    }
}

#[via_fn]
proof fn split_carry_decreases(s: Seq<u8>, d: Seq<u8>) {
    if first_delim(s, d) is Some {
        lemma_first_delim_bounds(s, d);
    }
}

/// The remainder never contains a delimiter.
pub proof fn lemma_carry_no_delim(s: Seq<u8>, d: Seq<u8>)
    requires
        1 <= d.len(),
    ensures
        first_delim(split_carry(s, d), d) is None,
    decreases s.len(),
{
    match first_delim(s, d) {
        None => {},
        Some(i) => {
            lemma_first_delim_bounds(s, d);
            lemma_carry_no_delim(s.subrange(i + d.len() as int, s.len() as int), d);
        },
    }
}

/// A leftmost occurrence in `s` is also leftmost in `s + t`.
proof fn lemma_first_delim_extend(s: Seq<u8>, t: Seq<u8>, d: Seq<u8>)
    requires
        1 <= d.len(),
        first_delim(s, d) is Some,
    ensures
        first_delim(s + t, d) == first_delim(s, d),
{
    let i = first_delim(s, d)->Some_0;
    lemma_first_delim_bounds(s, d);
    lemma_first_delim_iff(s, d, i);
    assert((s + t).subrange(i, i + d.len() as int) =~= s.subrange(i, i + d.len() as int));
    assert(is_delim_at(s + t, d, i));
    assert forall|j: int| 0 <= j < i implies !is_delim_at(s + t, d, j) by {
        if is_delim_at(s + t, d, j) {
            assert((s + t).subrange(j, j + d.len() as int) =~= s.subrange(j, j + d.len() as int));
            assert(is_delim_at(s, d, j));
        }
    }
    lemma_first_delim_iff(s + t, d, i);
}

/// Splitting distributes over concatenation: feeding `t` after `s` finds
/// exactly the frames of `s`, then the frames of the remainder of `s`
/// followed by `t`.  This is why splitting is insensitive to how the byte
/// stream is cut into chunks.
pub proof fn lemma_split_append(s: Seq<u8>, t: Seq<u8>, d: Seq<u8>)
    requires
        1 <= d.len(),
    ensures
        split_frames(s + t, d) == split_frames(s, d) + split_frames(split_carry(s, d) + t, d),
        split_carry(s + t, d) == split_carry(split_carry(s, d) + t, d),
    decreases s.len(),
{
    match first_delim(s, d) {
        None => {
            assert(s + t =~= split_carry(s, d) + t);
            assert(split_frames(s + t, d) =~= split_frames(s, d) + split_frames(
                split_carry(s, d) + t,
                d,
            ));
        },
        Some(i) => {
            lemma_first_delim_bounds(s, d);
            lemma_first_delim_extend(s, t, d);
            let rest = s.subrange(i + d.len() as int, s.len() as int);
            assert((s + t).subrange(i + d.len() as int, (s + t).len() as int) =~= rest + t);
            assert((s + t).subrange(0, i) =~= s.subrange(0, i));
            lemma_split_append(rest, t, d);
            assert(split_frames(s + t, d) =~= split_frames(s, d) + split_frames(
                split_carry(s, d) + t,
                d,
            ));
        },
    }
}

/// Concatenation of a chunk sequence.
pub open spec fn concat_chunks(cs: Seq<Seq<u8>>) -> Seq<u8>
    decreases cs.len(),
{
    if cs.len() == 0 {
        Seq::empty()
    } else {
        cs[0] + concat_chunks(cs.drop_first())
    }
}

/// The final remainder flushed as a last frame, if non-empty.
pub open spec fn flush_frames(carry: Seq<u8>) -> Seq<Seq<u8>> {
    if carry.len() == 0 {
        Seq::empty()
    } else {
        seq![carry]
    }
}

/// All frames produced when the chunks of `cs` are pushed in order starting
/// from carry `c`, and the remainder is flushed at stream end.
pub open spec fn stream_frames_from(c: Seq<u8>, cs: Seq<Seq<u8>>, d: Seq<u8>) -> Seq<Seq<u8>>
    decreases cs.len(),
{
    if cs.len() == 0 {
        flush_frames(c)
    } else {
        split_frames(c + cs[0], d) + stream_frames_from(
            split_carry(c + cs[0], d),
            cs.drop_first(),
            d,
        )
    }
}

/// All frames produced from a fresh splitter fed the chunks of `cs`.
pub open spec fn stream_frames(cs: Seq<Seq<u8>>, d: Seq<u8>) -> Seq<Seq<u8>> {
    stream_frames_from(Seq::empty(), cs, d)
}

/// Feeding chunks one at a time yields exactly the frames of the whole
/// stream at once.
proof fn lemma_stream_frames_concat(c: Seq<u8>, cs: Seq<Seq<u8>>, d: Seq<u8>)
    requires
        1 <= d.len(),
        first_delim(c, d) is None,
    ensures
        stream_frames_from(c, cs, d) == split_frames(c + concat_chunks(cs), d) + flush_frames(
            split_carry(c + concat_chunks(cs), d),
        ),
    decreases cs.len(),
{
    if cs.len() == 0 {
        assert(c + concat_chunks(cs) =~= c);
        assert(split_frames(c, d) + flush_frames(split_carry(c, d)) =~= flush_frames(c));
    } else {
        lemma_carry_no_delim(c + cs[0], d);
        lemma_stream_frames_concat(split_carry(c + cs[0], d), cs.drop_first(), d);
        lemma_split_append(c + cs[0], concat_chunks(cs.drop_first()), d);
        assert((c + cs[0]) + concat_chunks(cs.drop_first()) =~= c + concat_chunks(cs));
        assert(stream_frames_from(c, cs, d) =~= split_frames(c + concat_chunks(cs), d)
            + flush_frames(split_carry(c + concat_chunks(cs), d)));
    }
}

/// Chunk-boundary independence: two chunkings of the same byte stream give
/// the same frame sequence.  As each frame is decoded on its own, the
/// decoded event sequence is then the same as well.
pub proof fn lemma_chunking_independent(cs1: Seq<Seq<u8>>, cs2: Seq<Seq<u8>>, d: Seq<u8>)
    requires
        1 <= d.len(),
        concat_chunks(cs1) == concat_chunks(cs2),
    ensures
        stream_frames(cs1, d) == stream_frames(cs2, d),
{
    lemma_stream_frames_concat(Seq::empty(), cs1, d);
    lemma_stream_frames_concat(Seq::empty(), cs2, d);
    assert(Seq::empty() + concat_chunks(cs1) =~= concat_chunks(cs1));
    assert(Seq::empty() + concat_chunks(cs2) =~= concat_chunks(cs2));
}

/// Leftmost occurrence of `d` in `v`, executably.
fn find_first(v: &Vec<u8>, d: &Vec<u8>) -> (r: Option<usize>)
    requires
        1 <= d@.len(),
    ensures
        match r {
            Some(i) => first_delim(v@, d@) == Some(i as int),
            None => first_delim(v@, d@) is None,
        },
{
    if v.len() < d.len() {
        proof {
            lemma_first_delim_iff(v@, d@, 0);
            assert(forall|j: int| !is_delim_at(v@, d@, j));
        }
        return None;
    }
    let mut i: usize = 0;
    let last = v.len() - d.len();
    while i <= last
        invariant
            1 <= d@.len(),
            v@.len() <= usize::MAX,
            v@.len() >= d@.len(),
            last == v@.len() - d@.len(),
            0 <= i <= last + 1,
            forall|j: int| 0 <= j < i ==> !is_delim_at(v@, d@, j),
        decreases last + 1 - i,
    {
        let mut j: usize = 0;
        let mut hit = true;
        while j < d.len()
            invariant
                i + d@.len() <= v@.len(),
                v@.len() <= usize::MAX,
                0 <= j <= d@.len(),
                hit <==> (forall|k: int| 0 <= k < j ==> v@[i + k] == d@[k]),
            decreases d@.len() - j,
        {
            if v[i + j] != d[j] {
                hit = false;
                proof {
                    assert(v@[i + j as int] != d@[j as int]);
                }
            } else {
                proof {
                    if !hit {
                        let k = choose|k: int| 0 <= k < j && v@[i + k] != d@[k];
                        assert(0 <= k < j + 1 && v@[i + k] != d@[k]);
                    }
                }
            }
            j += 1;
        }
        if hit {
            proof {
                assert(v@.subrange(i as int, i + d@.len() as int) =~= d@);
                assert(is_delim_at(v@, d@, i as int));
                lemma_first_delim_iff(v@, d@, i as int);
            }
            return Some(i);
        }
        proof {
            let k = choose|k: int| 0 <= k < d@.len() && v@[i + k] != d@[k];
            assert(!is_delim_at(v@, d@, i as int)) by {
                if is_delim_at(v@, d@, i as int) {
                    assert(v@.subrange(i as int, i + d@.len() as int)[k] == v@[i + k]);
                }
            }
        }
        i += 1;
    }
    proof {
        if first_delim(v@, d@) is Some {
            let i0 = first_delim(v@, d@)->Some_0;
            lemma_first_delim_bounds(v@, d@);
            assert(!is_delim_at(v@, d@, i0));
        }
    }
    None
}

/// Cuts the byte stream into delimiter-bounded frames, carrying the bytes
/// after the last complete delimiter over to the next chunk.
pub struct FrameSplitter {
    delim: Vec<u8>,
    carry: Vec<u8>,
}

impl FrameSplitter {
    /// The configured delimiter.
    pub closed spec fn delim_view(&self) -> Seq<u8> {
        self.delim@
    }

    /// The bytes retained after the last complete delimiter.
    pub closed spec fn carry_view(&self) -> Seq<u8> {
        self.carry@
    }

    pub open spec fn wf(&self) -> bool {
        1 <= self.delim_view().len()
    }

    pub fn new(delim: Vec<u8>) -> (r: Self)
        requires
            1 <= delim@.len(),
        ensures
            r.wf(),
            r.delim_view() == delim@,
            r.carry_view() == Seq::<u8>::empty(),
    {
        let r = FrameSplitter { delim, carry: Vec::new() };
        proof {
            assert(r.carry_view() =~= Seq::<u8>::empty());
        }
        r
    }

    /// Appends the chunk to the carry buffer and yields every complete
    /// frame, in order, keeping the remainder.
    pub fn push(&mut self, chunk: &[u8]) -> (frames: Vec<Vec<u8>>)
        requires
            old(self).wf(),
        ensures
            final(self).wf(),
            final(self).delim_view() == old(self).delim_view(),
            frames@.map_values(|f: Vec<u8>| f@) == split_frames(
                old(self).carry_view() + chunk@,
                old(self).delim_view(),
            ),
            final(self).carry_view() == split_carry(
                old(self).carry_view() + chunk@,
                old(self).delim_view(),
            ),
    {
        let ghost total = old(self).carry_view() + chunk@;
        let mut i: usize = 0;
        while i < chunk.len()
            invariant
                self.carry@ == old(self).carry_view() + chunk@.subrange(0, i as int),
                self.delim@ == old(self).delim_view(),
                0 <= i <= chunk@.len(),
            decreases chunk@.len() - i,
        {
            let ghost pre = self.carry@;
            self.carry.push(chunk[i]);
            i += 1;
            proof {
                assert(self.carry@ =~= old(self).carry_view() + chunk@.subrange(0, i as int));
            }
        }
        proof {
            assert(self.carry@ =~= total);
        }
        let carry_len = self.carry.len();
        proof {
            assert(self.carry@.len() == carry_len as int);
        }
        let mut frames: Vec<Vec<u8>> = Vec::new();
        loop
            invariant
                total == old(self).carry_view() + chunk@,
                self.wf(),
                self.carry@.len() <= usize::MAX,
                self.delim@ == old(self).delim_view(),
                split_frames(total, self.delim@) == frames@.map_values(|f: Vec<u8>| f@)
                    + split_frames(self.carry@, self.delim@),
                split_carry(total, self.delim@) == split_carry(self.carry@, self.delim@),
            decreases self.carry@.len(),
        {
            let ghost pre_frames = frames@;
            let ghost pre_carry = self.carry@;
            match find_first(&self.carry, &self.delim) {
                None => {
                    proof {
                        assert(split_frames(pre_carry, self.delim@) =~= Seq::<Seq<u8>>::empty());
                        assert(frames@.map_values(|f: Vec<u8>| f@) + Seq::<Seq<u8>>::empty()
                            =~= frames@.map_values(|f: Vec<u8>| f@));
                    }
                    return frames;
                },
                Some(pos) => {
                    proof {
                        lemma_first_delim_bounds(pre_carry, self.delim@);
                    }
                    let frame = vec_slice_copy(&self.carry, 0, pos);
                    let rest = vec_slice_copy(&self.carry, pos + self.delim.len(), self.carry.len());
                    frames.push(frame);
                    self.carry = rest;
                    proof {
                        assert(frames@.map_values(|f: Vec<u8>| f@) =~= pre_frames.map_values(
                            |f: Vec<u8>| f@,
                        ).push(pre_carry.subrange(0, pos as int)));
                        assert(split_frames(pre_carry, self.delim@) =~= seq![
                            pre_carry.subrange(0, pos as int),
                        ] + split_frames(self.carry@, self.delim@));
                        assert(split_frames(total, self.delim@) =~= frames@.map_values(
                            |f: Vec<u8>| f@,
                        ) + split_frames(self.carry@, self.delim@));
                    }
                },
            }
        }
    }

    /// At stream end, flushes any non-empty remainder as a final frame.
    pub fn finish(&mut self) -> (r: Option<Vec<u8>>)
        requires
            old(self).wf(),
        ensures
            final(self).wf(),
            final(self).delim_view() == old(self).delim_view(),
            final(self).carry_view() == Seq::<u8>::empty(),
            match r {
                Some(f) => f@ == old(self).carry_view() && old(self).carry_view().len() > 0
                    && flush_frames(old(self).carry_view()) == seq![f@],
                None => old(self).carry_view().len() == 0 && flush_frames(old(self).carry_view())
                    == Seq::<Seq<u8>>::empty(),
            },
    {
        let ghost pre = self.carry@;
        if self.carry.len() == 0 {
            proof {
                assert(self.carry_view() =~= Seq::<u8>::empty());
            }
            None
        } else {
            let mut out: Vec<u8> = Vec::new();
            core::mem::swap(&mut out, &mut self.carry);
            proof {
                assert(self.carry_view() =~= Seq::<u8>::empty());
            }
            Some(out)
        }
    }
}

} // verus!
