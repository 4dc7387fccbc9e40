//! The two capabilities the composite reader is built on: a byte source and a
//! single-pass producer of sources.

use vstd::prelude::*;

verus! {

use crate::error::ReadError;

/// A byte source: fills a caller-provided buffer from the front and reports
/// how many bytes it deposited, or fails with an error.
///
/// The model is three-fold: `remaining` gives the bytes the source will still
/// yield, and `fails_next` / `next_error` / `next_amount` pin down what the
/// next read call does, so that callers can reason exactly about each call.
/// A successful read of zero bytes into a non-empty buffer is the source's
/// exhaustion signal: it occurs only once nothing remains.
pub trait Source: Sized {
    /// The bytes this source will still yield, in order.
    spec fn remaining(&self) -> Seq<u8>;

    /// Whether the next read call on this source fails.
    spec fn fails_next(&self) -> bool;

    /// The message of the error the next read call reports, when it fails.
    spec fn next_error(&self) -> Seq<char>;

    /// How many bytes the next read call deposits into a buffer of the given
    /// length, when it succeeds.
    spec fn next_amount(&self, buf_len: nat) -> nat;

    /// Fills a prefix of `buf` with the next bytes of this source.
    fn read(&mut self, buf: &mut Vec<u8>) -> (r: Result<usize, ReadError>)
        ensures
            final(buf)@.len() == old(buf)@.len(),
            match r {
                Ok(n) => {
                    &&& !old(self).fails_next()
                    &&& n as nat == old(self).next_amount(old(buf)@.len())
                    &&& n as int <= old(buf)@.len() as int
                    &&& n as int <= old(self).remaining().len() as int
                    &&& final(buf)@.subrange(0, n as int) == old(self).remaining().subrange(
                        0,
                        n as int,
                    )
                    &&& final(buf)@.skip(n as int) == old(buf)@.skip(n as int)
                    &&& final(self).remaining() == old(self).remaining().skip(n as int)
                    &&& ((n == 0 && old(buf)@.len() > 0) ==> old(self).remaining().len() == 0)
                },
                Err(e) => {
                    &&& old(self).fails_next()
                    &&& e@ == old(self).next_error()
                    &&& final(self).remaining() == old(self).remaining()
                    &&& final(buf)@ == old(buf)@
                },
            },
    ;
}

/// A single-pass, pull-based producer of sources: each source is handed out
/// exactly once, in a fixed order, and never revisited.
///
/// The sources still to come are modelled as a finite sequence. That is what
/// lets a composite read call be shown to terminate: the skipping of
/// exhausted sources is bounded by how many sources remain.
pub trait SourceProducer<R: Source>: Sized {
    /// The sources this producer will still yield, in order.
    spec fn upcoming(&self) -> Seq<R>;

    /// Hands out the next source, or reports that none remains.
    fn next(&mut self) -> (r: Option<R>)
        ensures
            match r {
                Some(s) => {
                    &&& old(self).upcoming().len() > 0
                    &&& s == old(self).upcoming()[0]
                    &&& final(self).upcoming() == old(self).upcoming().skip(1)
                },
                None => {
                    &&& old(self).upcoming().len() == 0
                    &&& final(self).upcoming() == old(self).upcoming()
                },
            },
    ;
}

/// The concatenation of the bytes the sources of `ss` will yield, in order.
pub open spec fn flat_remaining<R: Source>(ss: Seq<R>) -> Seq<u8>
    decreases ss.len(),
{
    if ss.len() == 0 {
        Seq::empty()
    } else {
        ss[0].remaining() + flat_remaining(ss.skip(1))
    }
}

/// Drops the leading sources whose next read cleanly signals exhaustion: the
/// sources a composite read call skips before one of them yields bytes or
/// fails, or before none remains.
pub open spec fn skip_exhausted<R: Source>(ss: Seq<R>) -> Seq<R>
    decreases ss.len(),
{
    if ss.len() == 0 {
        ss
    } else if !ss[0].fails_next() && ss[0].remaining().len() == 0 {
        skip_exhausted(ss.skip(1))
    } else {
        ss
    }
}

/// Skipping exhausted sources loses no bytes: they had none left to yield.
pub proof fn lemma_flat_remaining_skip_exhausted<R: Source>(ss: Seq<R>)
    ensures
        flat_remaining(skip_exhausted(ss)) == flat_remaining(ss),
    decreases ss.len(),
{
    if ss.len() == 0 {
    } else if !ss[0].fails_next() && ss[0].remaining().len() == 0 {
        lemma_flat_remaining_skip_exhausted(ss.skip(1));
        assert(flat_remaining(ss) =~= flat_remaining(ss.skip(1)));
    }
}

/// Unfolds `flat_remaining` over an explicit head source.
pub proof fn lemma_flat_remaining_cons<R: Source>(head: R, rest: Seq<R>)
    ensures
        flat_remaining(seq![head] + rest) == head.remaining() + flat_remaining(rest),
{
    let ss = seq![head] + rest;
    assert(ss[0] == head);
    assert(ss.skip(1) =~= rest);
}

} // verus!
