//! Record-aligned chunking of a byte source.
//!
//! A chunked reader hands out chunks of close to a chosen target size, each
//! ending at a newline, so that no record is ever split across two chunks.
//! Bytes past the last newline of a filled buffer are retained as a remainder
//! and lead the next chunk; once the source runs out, whatever remains is
//! handed out wholesale as the final chunk.

use vstd::prelude::*;

use crate::Error;
use crate::util::last_index_of;
use crate::util::lemma_last_index_of;

verus! {

/// The newline byte that terminates every record.
pub open spec fn nl_byte() -> u8 {
    0x0a
}

/// The record-aligned chunks of `s` for a target size `t`, or `None` when
/// some non-final chunk would contain no newline at all.
///
/// While at least `t` bytes remain, the next chunk is the prefix of the first
/// `t` bytes that ends at their last newline; once fewer than `t` bytes
/// remain, they form the final chunk (possibly empty).
pub open spec fn spec_chunks(s: Seq<u8>, t: int) -> Option<Seq<Seq<u8>>>
    recommends
        t >= 1,
    decreases s.len(),
    via spec_chunks_decreases
{
    if t < 1 || s.len() < t {
        Some(seq![s])
    } else {
        let nl = last_index_of(s.take(t), nl_byte());
        if nl < 0 {
            None
        } else {
            match spec_chunks(s.skip(nl + 1), t) {
                None => None,
                Some(rest) => Some(seq![s.take(nl + 1)] + rest),
            }
        }
    }
}

#[via_fn]
proof fn spec_chunks_decreases(s: Seq<u8>, t: int) {
    if !(t < 1 || s.len() < t) {
        lemma_last_index_of(s.take(t), nl_byte());
        assert(s.take(t).len() == t);
        let nl = last_index_of(s.take(t), nl_byte());
        if nl >= 0 {
            assert(s.skip(nl + 1).len() < s.len());
        }
    }
}

/// Record preservation: the chunks of a source concatenate back to it,
/// byte for byte.
pub proof fn lemma_chunks_concat(s: Seq<u8>, t: int, cs: Seq<Seq<u8>>)
    requires
        t >= 1,
        spec_chunks(s, t) == Some(cs),
    ensures
        cs.flatten() == s,
    decreases s.len(),
{
    if s.len() < t {
        assert(cs =~= seq![s]);
        assert(cs.drop_first() =~= Seq::<Seq<u8>>::empty());
        assert(cs.first() == s);
        assert(Seq::<Seq<u8>>::empty().flatten() =~= Seq::<u8>::empty());
        assert(cs.flatten() == cs.first() + cs.drop_first().flatten());
        assert(cs.flatten() =~= s);
    } else {
        let nl = last_index_of(s.take(t), nl_byte());
        lemma_last_index_of(s.take(t), nl_byte());
        let rest = spec_chunks(s.skip(nl + 1), t)->Some_0;
        lemma_chunks_concat(s.skip(nl + 1), t, rest);
        assert(cs =~= seq![s.take(nl + 1)] + rest);
        assert(cs.drop_first() =~= rest);
        assert(cs.first() == s.take(nl + 1));
        assert(cs.flatten() == s.take(nl + 1) + rest.flatten());
        assert(s.take(nl + 1) + s.skip(nl + 1) =~= s);
    }
}

/// Record alignment: there is always at least one chunk, and every chunk but
/// the last ends at a newline; with record preservation this puts every
/// newline-terminated record wholly inside one chunk.
pub proof fn lemma_chunks_aligned(s: Seq<u8>, t: int, cs: Seq<Seq<u8>>)
    requires
        t >= 1,
        spec_chunks(s, t) == Some(cs),
    ensures
        cs.len() >= 1,
        forall|i: int|
            0 <= i < cs.len() - 1 ==> #[trigger] cs[i].len() >= 1 && cs[i].last() == nl_byte(),
    decreases s.len(),
{
    if s.len() >= t {
        let nl = last_index_of(s.take(t), nl_byte());
        lemma_last_index_of(s.take(t), nl_byte());
        let rest = spec_chunks(s.skip(nl + 1), t)->Some_0;
        lemma_chunks_aligned(s.skip(nl + 1), t, rest);
        assert(cs =~= seq![s.take(nl + 1)] + rest);
        assert(cs[0].last() == s.take(t)[nl]);
        assert forall|i: int|
            0 <= i < cs.len() - 1 implies #[trigger] cs[i].len() >= 1 && cs[i].last()
            == nl_byte() by {
            if i > 0 {
                assert(cs[i] == rest[i - 1]);
            }
        }
    }
}

/// How many bytes the first `j` chunks hold together.
pub open spec fn chunks_prefix_len(cs: Seq<Seq<u8>>, j: int) -> int
    decreases j,
{
    if j <= 0 {
        0
    } else {
        chunks_prefix_len(cs, j - 1) + cs[j - 1].len()
    }
}

proof fn lemma_prefix_len_cons(c0: Seq<u8>, rest: Seq<Seq<u8>>, j: int)
    requires
        1 <= j <= rest.len() + 1,
    ensures
        chunks_prefix_len(seq![c0] + rest, j) == c0.len() + chunks_prefix_len(rest, j - 1),
    decreases j,
{
    if j > 1 {
        lemma_prefix_len_cons(c0, rest, j - 1);
        assert((seq![c0] + rest)[j - 1] == rest[j - 2]);
        assert(chunks_prefix_len(seq![c0] + rest, j) == chunks_prefix_len(seq![c0] + rest, j - 1)
            + (seq![c0] + rest)[j - 1].len());
        assert(chunks_prefix_len(rest, j - 1) == chunks_prefix_len(rest, j - 2) + rest[j
            - 2].len());
    } else {
        assert((seq![c0] + rest)[0] == c0);
        assert(chunks_prefix_len(seq![c0] + rest, 1) == chunks_prefix_len(seq![c0] + rest, 0) + (
        seq![c0] + rest)[0].len());
        assert(chunks_prefix_len(rest, 0) == 0);
    }
}

/// Every internal chunk boundary falls right after a newline of the source.
/// With record preservation this puts every newline-terminated record wholly
/// inside exactly one chunk: a record holds no newline before its final byte,
/// so no boundary can fall inside it.
pub proof fn lemma_chunk_boundaries(s: Seq<u8>, t: int, cs: Seq<Seq<u8>>)
    requires
        t >= 1,
        spec_chunks(s, t) == Some(cs),
    ensures
        forall|j: int|
            1 <= j < cs.len() ==> 1 <= #[trigger] chunks_prefix_len(cs, j) <= s.len() && s[
                chunks_prefix_len(cs, j) - 1] == nl_byte(),
    decreases s.len(),
{
    if s.len() >= t {
        let nl = last_index_of(s.take(t), nl_byte());
        lemma_last_index_of(s.take(t), nl_byte());
        assert(nl >= 0);
        let c0 = s.take(nl + 1);
        let rest = spec_chunks(s.skip(nl + 1), t)->Some_0;
        lemma_chunk_boundaries(s.skip(nl + 1), t, rest);
        assert(cs =~= seq![c0] + rest);
        assert(cs.len() == rest.len() + 1);
        assert forall|j: int|
            1 <= j < cs.len() implies 1 <= #[trigger] chunks_prefix_len(cs, j) <= s.len() && s[
            chunks_prefix_len(cs, j) - 1] == nl_byte() by {
            lemma_prefix_len_cons(c0, rest, j);
            if j == 1 {
                assert(chunks_prefix_len(rest, 0) == 0);
                assert(s[nl] == s.take(t)[nl]);
            } else {
                let o = chunks_prefix_len(rest, j - 1);
                assert(1 <= o <= s.skip(nl + 1).len() && s.skip(nl + 1)[o - 1] == nl_byte());
                assert(s.skip(nl + 1)[o - 1] == s[nl + 1 + (o - 1)]);
            }
        }
    }
}

/// Reads a byte source into record-aligned chunks of close to a chosen size.
pub struct ChunkedReader {
    source: Vec<u8>,
    pos: usize,
    remainder: Vec<u8>,
    exhausted: bool,
}

impl ChunkedReader {
    /// The bytes not yet handed out: the retained remainder followed by the
    /// unread part of the source.
    pub closed spec fn rest(&self) -> Seq<u8> {
        self.remainder@ + self.source@.skip(self.pos as int)
    }

    /// Whether the final chunk has been handed out.
    pub closed spec fn is_exhausted(&self) -> bool {
        self.exhausted
    }

    /// How many remainder bytes are retained for the next chunk.
    pub closed spec fn pending(&self) -> nat {
        self.remainder@.len()
    }

    pub closed spec fn wf(&self) -> bool {
        &&& self.pos <= self.source@.len()
        &&& (self.exhausted ==> self.pos == self.source@.len() && self.remainder@.len() == 0)
    }

    pub fn new(source: Vec<u8>) -> (r: Self)
        ensures
            r.wf(),
            !r.is_exhausted(),
            r.rest() == source@,
            r.pending() == 0,
    {
        let ghost src = source@;
        let r = ChunkedReader { source, pos: 0, remainder: Vec::new(), exhausted: false };
        proof {
            assert(r.rest() =~= src);
        }
        r
    }

    /// Fills `dest` with the next record-aligned chunk.
    ///
    /// `Ok(true)` delivers a non-final chunk: the longest prefix of the next
    /// `target_size` pending bytes that ends at a newline; the bytes after
    /// that newline are retained. `Ok(false)` delivers the final chunk: all
    /// pending bytes, which number fewer than `target_size`; the reader is
    /// exhausted afterwards, and once exhausted it keeps returning `Ok(false)`
    /// with an empty chunk. When a non-final chunk would contain no newline
    /// at all, no record-aligned cut exists: `Err(NoRecordBoundary)`.
    pub fn read_into(&mut self, dest: &mut Vec<u8>, target_size: usize) -> (r: Result<bool, Error>)
        requires
            old(self).wf(),
            old(self).pending() < target_size,
        ensures
            final(self).wf(),
            match r {
                Ok(more) => if more {
                    &&& !old(self).is_exhausted()
                    &&& old(self).rest().len() >= target_size
                    &&& {
                        let nl = last_index_of(old(self).rest().take(target_size as int), nl_byte());
                        &&& nl >= 0
                        &&& final(dest)@ == old(self).rest().take(nl + 1)
                        &&& final(self).rest() == old(self).rest().skip(nl + 1)
                    }
                    &&& !final(self).is_exhausted()
                    &&& final(self).pending() < target_size
                } else {
                    &&& (old(self).is_exhausted() || old(self).rest().len() < target_size)
                    &&& final(dest)@ == if old(self).is_exhausted() {
                        Seq::<u8>::empty()
                    } else {
                        old(self).rest()
                    }
                    &&& final(self).is_exhausted()
                    &&& final(self).rest() == Seq::<u8>::empty()
                    &&& final(self).pending() == 0
                },
                Err(e) => {
                    &&& e == Error::NoRecordBoundary
                    &&& !old(self).is_exhausted()
                    &&& old(self).rest().len() >= target_size
                    &&& last_index_of(old(self).rest().take(target_size as int), nl_byte()) < 0
                },
            },
    {
        let ghost rest0 = self.rest();
        if self.exhausted {
            dest.clear();
            proof {
                assert(self.rest() =~= Seq::<u8>::empty());
            }
            return Ok(false);
        }
        dest.clear();
        let ghost rem0 = self.remainder@;
        let ghost src0 = self.source@;
        let ghost pos0 = self.pos as int;

        // Lead with the retained remainder; it may end mid-character, so it
        // is treated as raw bytes throughout.
        let mut i: usize = 0;
        while i < self.remainder.len()
            invariant
                i <= rem0.len(),
                self.remainder@ == rem0,
                self.source@ == src0,
                self.pos == pos0,
                self.exhausted == false,
                dest@ =~= rem0.take(i as int),
            decreases rem0.len() - i,
        {
            let b = self.remainder[i];
            dest.push(b);
            i += 1;
        }
        self.remainder.clear();
        proof {
            assert(dest@ =~= rem0);
        }

        // Pull source bytes until the buffer holds `target_size` bytes or the
        // source runs out.
        while dest.len() < target_size && self.pos < self.source.len()
            invariant
                self.source@ == src0,
                self.remainder@.len() == 0,
                self.exhausted == false,
                0 <= pos0 <= self.pos as int <= src0.len(),
                dest@ =~= rem0 + src0.subrange(pos0, self.pos as int),
                dest@.len() <= target_size,
                rem0.len() < target_size,
            decreases src0.len() - self.pos,
        {
            let ghost p = self.pos as int;
            let b = self.source[self.pos];
            dest.push(b);
            proof {
                assert(src0.subrange(pos0, p + 1) =~= src0.subrange(pos0, p).push(src0[p]));
                assert(dest@ =~= rem0 + src0.subrange(pos0, p + 1));
            }
            self.pos += 1;
        }

        if dest.len() < target_size {
            // The source ran dry first: this is the final chunk.
            self.exhausted = true;
            proof {
                assert(self.pos == src0.len());
                assert(dest@ =~= rest0);
                assert(self.rest() =~= Seq::<u8>::empty());
            }
            return Ok(false);
        }
        proof {
            assert(dest@ =~= rest0.take(target_size as int));
        }

        // Cut at the last newline; everything after it is retained for the
        // next chunk.
        match last_byte_index(dest, 0x0a) {
            None => {
                proof {
                    assert(self.rest() =~= src0.skip(self.pos as int));
                }
                Err(Error::NoRecordBoundary)
            },
            Some(nl) => {
                proof {
                    lemma_last_index_of(dest@, nl_byte());
                }
                let ghost filled = dest@;
                let ghost posq = self.pos as int;
                let mut k: usize = nl + 1;
                while k < dest.len()
                    invariant
                        nl + 1 <= k <= filled.len(),
                        dest@ == filled,
                        self.source@ == src0,
                        self.pos as int == posq,
                        self.exhausted == false,
                        self.remainder@ =~= filled.subrange(nl + 1, k as int),
                    decreases filled.len() - k,
                {
                    let b = dest[k];
                    self.remainder.push(b);
                    k += 1;
                }
                dest.truncate(nl + 1);
                proof {
                    assert(dest@ =~= rest0.take(nl + 1));
                    assert(self.remainder@ =~= filled.subrange(nl + 1, filled.len() as int));
                    assert(self.source@.skip(self.pos as int) =~= rest0.skip(
                        target_size as int,
                    ));
                    assert(self.rest() =~= rest0.skip(nl + 1));
                }
                Ok(true)
            },
        }
    }

    /// Hands out the next chunk as an owned buffer: a chunk for every call
    /// until the reader is exhausted, then `None`.
    pub fn read(&mut self, target_size: usize) -> (r: Result<Option<Vec<u8>>, Error>)
        requires
            old(self).wf(),
            old(self).pending() < target_size,
        ensures
            final(self).wf(),
            match r {
                Ok(None) => {
                    &&& old(self).is_exhausted()
                    &&& final(self).is_exhausted()
                    &&& final(self).rest() == old(self).rest()
                },
                Ok(Some(chunk)) => {
                    &&& !old(self).is_exhausted()
                    &&& if old(self).rest().len() < target_size {
                        &&& chunk@ == old(self).rest()
                        &&& final(self).is_exhausted()
                        &&& final(self).rest() == Seq::<u8>::empty()
                    } else {
                        let nl = last_index_of(old(self).rest().take(target_size as int), nl_byte());
                        &&& nl >= 0
                        &&& chunk@ == old(self).rest().take(nl + 1)
                        &&& final(self).rest() == old(self).rest().skip(nl + 1)
                        &&& !final(self).is_exhausted()
                        &&& final(self).pending() < target_size
                    }
                },
                Err(e) => {
                    &&& e == Error::NoRecordBoundary
                    &&& !old(self).is_exhausted()
                    &&& old(self).rest().len() >= target_size
                    &&& last_index_of(old(self).rest().take(target_size as int), nl_byte()) < 0
                },
            },
    {
        if self.exhausted {
            return Ok(None);
        }
        let mut chunk: Vec<u8> = Vec::new();
        match self.read_into(&mut chunk, target_size) {
            Ok(_) => Ok(Some(chunk)),
            Err(e) => Err(e),
        }
    }
}

/// The largest index of `b` in `v`, if `b` occurs at all.
fn last_byte_index(v: &Vec<u8>, b: u8) -> (r: Option<usize>)
    ensures
        match r {
            Some(i) => last_index_of(v@, b) == i,
            None => last_index_of(v@, b) == -1,
        },
{
    proof {
        lemma_last_index_of(v@, b);
    }
    let mut i = v.len();
    while i > 0
        invariant
            i <= v@.len(),
            forall|j: int| i <= j < v@.len() ==> v@[j] != b,
        decreases i,
    {
        i -= 1;
        if v[i] == b {
            proof {
                lemma_last_index_of(v@, b);
                let l = last_index_of(v@, b);
                if l < i {
                    assert(v@[i as int] != b);
                }
                if l > i {
                    assert(v@[l] != b);
                }
            }
            return Some(i);
        }
    }
    None
}

} // verus!
