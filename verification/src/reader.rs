//! The composite reader: one logical stream over a sequence of sources.

use vstd::prelude::*;

verus! {

use crate::error::ReadError;
use crate::source::Source;
use crate::source::SourceProducer;
use crate::source::flat_remaining;
use crate::source::skip_exhausted;
use crate::source::lemma_flat_remaining_cons;
use crate::source::lemma_flat_remaining_skip_exhausted;

/// Chains the sources a producer yields into a single logical byte stream.
///
/// At most one source is active at a time. A read call delegates to the
/// active source; when that source signals exhaustion (a successful
/// zero-byte read), it is dropped and the next source is pulled from the
/// producer, until some source yields bytes or fails, or none remains.
/// Once no source remains, every read call reports zero bytes, success.
pub struct MultiReader<R, I> {
    readers: I,
    current: Option<R>,
}

impl<R: Source, I: SourceProducer<R>> MultiReader<R, I> {
    /// The active source, if any, followed by the sources still to come.
    pub closed spec fn chain(&self) -> Seq<R> {
        match self.current {
            Some(r) => seq![r] + self.readers.upcoming(),
            None => self.readers.upcoming(),
        }
    }

    /// No source remains: the stream has reached its end for good.
    pub closed spec fn drained(&self) -> bool {
        self.current is None
    }

    /// Once the active slot is empty the producer is never queried again,
    /// so nothing may be left in it.
    pub closed spec fn wf(&self) -> bool {
        self.current is None ==> self.readers.upcoming().len() == 0
    }

    /// The bytes the composite stream will still yield, in order.
    pub open spec fn remaining(&self) -> Seq<u8> {
        flat_remaining(self.chain())
    }

    /// The sources the next read call walks: the exhausted leaders are
    /// dropped, and the head of what is left (if anything is) decides the
    /// call's outcome.
    pub open spec fn ahead(&self) -> Seq<R> {
        skip_exhausted(self.chain())
    }

    /// Builds a composite reader over the sources `readers` yields, pulling
    /// the first source eagerly into the active slot.
    pub fn new(readers: I) -> (m: MultiReader<R, I>)
        ensures
            m.wf(),
            m.chain() == readers.upcoming(),
            m.remaining() == flat_remaining(readers.upcoming()),
            m.drained() <==> readers.upcoming().len() == 0,
    {
        let mut readers = readers;
        let ghost orig = readers.upcoming();
        let current = readers.next();
        let m = MultiReader { readers, current };
        proof {
            assert(m.chain() =~= orig);
        }
        m
    }

    /// Fills a prefix of `buf` with the next bytes of the stream.
    ///
    /// The outcome is decided by the first source ahead that is not cleanly
    /// exhausted: if none is left the call reports zero bytes (and from then
    /// on every call does); if it fails, its error is relayed unchanged and
    /// the stream does not advance; otherwise that source's bytes are
    /// deposited at the front of `buf`, and one call takes bytes from one
    /// source only.
    pub fn read(&mut self, buf: &mut Vec<u8>) -> (r: Result<usize, ReadError>)
        requires
            old(self).wf(),
            old(buf)@.len() > 0,
        ensures
            final(self).wf(),
            final(buf)@.len() == old(buf)@.len(),
            old(self).ahead().len() == 0 ==> r == Result::<usize, ReadError>::Ok(0usize),
            old(self).ahead().len() > 0 && old(self).ahead()[0].fails_next() ==> (r matches Err(e)
                && e@ == old(self).ahead()[0].next_error()
                && final(self).chain().len() == old(self).ahead().len()
                && final(self).chain()[0].remaining() == old(self).ahead()[0].remaining()
                && final(self).chain().skip(1) == old(self).ahead().skip(1)),
            old(self).ahead().len() > 0 && !old(self).ahead()[0].fails_next() ==> (r matches Ok(n)
                && n as nat == old(self).ahead()[0].next_amount(old(buf)@.len())
                && final(self).chain().len() == old(self).ahead().len()
                && final(self).chain()[0].remaining() == old(self).ahead()[0].remaining().skip(
                    n as int,
                )
                && final(self).chain().skip(1) == old(self).ahead().skip(1)),
            match r {
                Ok(n) => {
                    &&& n as int <= old(buf)@.len() as int
                    &&& n as int <= old(self).remaining().len() as int
                    &&& final(buf)@.subrange(0, n as int) == old(self).remaining().subrange(
                        0,
                        n as int,
                    )
                    &&& final(buf)@.skip(n as int) == old(buf)@.skip(n as int)
                    &&& final(self).remaining() == old(self).remaining().skip(n as int)
                    &&& (n == 0 ==> final(self).drained() && old(self).remaining().len() == 0
                        && final(buf)@ == old(buf)@)
                    &&& (n > 0 ==> old(self).remaining().len() > 0)
                },
                Err(_) => {
                    &&& final(self).remaining() == old(self).remaining()
                    &&& !final(self).drained()
                    &&& final(buf)@ == old(buf)@
                },
            },
            old(self).drained() ==> final(self).drained() && r == Result::<usize, ReadError>::Ok(
                0usize,
            ),
    {
        loop
            invariant
                old(self).wf(),
                old(buf)@.len() > 0,
                self.wf(),
                buf@ == old(buf)@,
                self.ahead() == old(self).ahead(),
            decreases self.chain().len(),
        {
            if self.current.is_some() {
                let ghost iter_chain = self.chain();
                let ghost buf0 = buf@;
                let mut active = self.current.take().unwrap();
                let ghost pre = active;
                let ghost rest = self.readers.upcoming();
                proof {
                    assert(iter_chain =~= seq![pre] + rest);
                }
                let res = active.read(buf);
                match res {
                    Ok(n) => {
                        if n > 0 {
                            self.current = Some(active);
                            proof {
                                assert(iter_chain[0] == pre);
                                assert(skip_exhausted(iter_chain) == iter_chain);
                                lemma_flat_remaining_skip_exhausted(old(self).chain());
                                lemma_flat_remaining_cons(pre, rest);
                                lemma_flat_remaining_cons(active, rest);
                                assert(self.chain() =~= seq![active] + rest);
                                assert(old(self).remaining() == pre.remaining() + flat_remaining(
                                    rest,
                                ));
                                assert(buf@.subrange(0, n as int) =~= old(
                                    self,
                                ).remaining().subrange(0, n as int));
                                assert(self.remaining() =~= old(self).remaining().skip(n as int));
                                assert(self.chain().skip(1) =~= rest);
                                assert(iter_chain.skip(1) =~= rest);
                                assert(old(self).ahead().len() > 0);
                                assert(!old(self).drained()) by {
                                    if old(self).current is None {
                                        assert(old(self).chain().len() == 0);
                                    }
                                }
                            }
                            return Ok(n);
                        }
                        // The active source is exhausted: drop it and pull
                        // the next one, retrying with the same buffer.
                        self.current = self.readers.next();
                        proof {
                            assert(buf@.skip(0) =~= buf@);
                            assert(buf0.skip(0) =~= buf0);
                            assert(buf@ =~= buf0);
                            assert(iter_chain[0] == pre);
                            assert(iter_chain.skip(1) =~= rest);
                            assert(skip_exhausted(iter_chain) == skip_exhausted(rest));
                            assert(self.chain() =~= rest);
                        }
                    },
                    Err(e) => {
                        self.current = Some(active);
                        proof {
                            assert(iter_chain[0] == pre);
                            assert(skip_exhausted(iter_chain) == iter_chain);
                            lemma_flat_remaining_skip_exhausted(old(self).chain());
                            lemma_flat_remaining_cons(pre, rest);
                            lemma_flat_remaining_cons(active, rest);
                            assert(self.chain() =~= seq![active] + rest);
                            assert(self.remaining() == old(self).remaining());
                            assert(self.chain().skip(1) =~= rest);
                            assert(iter_chain.skip(1) =~= rest);
                            assert(old(self).ahead().len() > 0);
                            assert(!old(self).drained()) by {
                                if old(self).current is None {
                                    assert(old(self).chain().len() == 0);
                                }
                            }
                        }
                        return Err(e);
                    },
                }
            } else {
                proof {
                    assert(self.chain().len() == 0);
                    assert(self.ahead() =~= self.chain());
                    lemma_flat_remaining_skip_exhausted(old(self).chain());
                    assert(old(self).remaining().len() == 0);
                    assert(buf@.subrange(0, 0) =~= old(self).remaining().subrange(0, 0));
                    assert(buf@.skip(0) =~= old(buf)@.skip(0));
                    assert(self.remaining() =~= old(self).remaining().skip(0));
                }
                return Ok(0);
            }
        }
    }
}

/// The chunks a run of successful read calls hands back when the stream
/// holds `bytes` and the calls return `sizes[0]`, `sizes[1]`, ... bytes in
/// turn: each call yields a prefix of what remains and leaves the rest, as
/// `read`'s contract states.
pub open spec fn chunks_of(bytes: Seq<u8>, sizes: Seq<int>) -> Seq<Seq<u8>>
    decreases sizes.len(),
{
    if sizes.len() == 0 {
        Seq::empty()
    } else {
        seq![bytes.take(sizes[0])] + chunks_of(bytes.skip(sizes[0]), sizes.skip(1))
    }
}

/// The concatenation of a sequence of chunks, in order.
pub open spec fn concat_of(chunks: Seq<Seq<u8>>) -> Seq<u8>
    decreases chunks.len(),
{
    if chunks.len() == 0 {
        Seq::empty()
    } else {
        chunks[0] + concat_of(chunks.skip(1))
    }
}

/// The total byte count of a run of read calls.
pub open spec fn total_of(sizes: Seq<int>) -> int
    decreases sizes.len(),
{
    if sizes.len() == 0 {
        0
    } else {
        sizes[0] + total_of(sizes.skip(1))
    }
}

proof fn lemma_total_of_nonneg(sizes: Seq<int>)
    requires
        forall|i: int| 0 <= i < sizes.len() ==> 0 <= sizes[i],
    ensures
        0 <= total_of(sizes),
    decreases sizes.len(),
{
    if sizes.len() > 0 {
        assert forall|i: int| 0 <= i < sizes.skip(1).len() implies 0 <= sizes.skip(1)[i] by {
            assert(sizes.skip(1)[i] == sizes[i + 1]);
        }
        lemma_total_of_nonneg(sizes.skip(1));
    }
}

/// Law: however a caller's reads partition the stream, reading it to
/// exhaustion yields exactly the bytes it held, in order. Each successful
/// call on a [`MultiReader`] returns `remaining().subrange(0, n)` and leaves
/// `remaining().skip(n)` behind (its contract), whatever the buffer size and
/// however the bytes were split across sources; so once the returned counts
/// add up to the whole stream, their chunks reassemble to it.
pub proof fn lemma_reads_reassemble(bytes: Seq<u8>, sizes: Seq<int>)
    requires
        forall|i: int| 0 <= i < sizes.len() ==> 0 <= sizes[i],
        total_of(sizes) == bytes.len(),
    ensures
        concat_of(chunks_of(bytes, sizes)) == bytes,
    decreases sizes.len(),
{
    if sizes.len() == 0 {
        assert(bytes =~= Seq::<u8>::empty());
    } else {
        let k = sizes[0];
        assert forall|i: int| 0 <= i < sizes.skip(1).len() implies 0 <= sizes.skip(1)[i] by {
            assert(sizes.skip(1)[i] == sizes[i + 1]);
        }
        lemma_total_of_nonneg(sizes.skip(1));
        lemma_reads_reassemble(bytes.skip(k), sizes.skip(1));
        let chunks = chunks_of(bytes, sizes);
        assert(chunks[0] == bytes.take(k));
        assert(chunks.skip(1) =~= chunks_of(bytes.skip(k), sizes.skip(1)));
        assert(concat_of(chunks) == bytes.take(k) + concat_of(chunks.skip(1)));
        assert(bytes.take(k) + bytes.skip(k) =~= bytes);
    }
}

} // verus!
