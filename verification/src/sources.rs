//! Ready-made sources and producers: a run of repeated bytes, a wrapper that
//! fails on a chosen call, and a producer backed by a vector.

use vstd::prelude::*;

verus! {

use crate::error::ReadError;
use crate::source::Source;
use crate::source::SourceProducer;

/// A source that yields a fixed number of copies of one byte.
pub struct RepeatSource {
    byte: u8,
    left: usize,
}

impl RepeatSource {
    /// A source holding `count` copies of `byte`.
    pub fn new(byte: u8, count: usize) -> (s: RepeatSource)
        ensures
            s.remaining() == Seq::<u8>::new(count as nat, |i: int| byte),
            !s.fails_next(),
            forall|l: nat| #[trigger] s.next_amount(l) == if l <= count as nat {
                l
            } else {
                count as nat
            },
    {
        RepeatSource { byte, left: count }
    }
}

impl Source for RepeatSource {
    closed spec fn remaining(&self) -> Seq<u8> {
        Seq::new(self.left as nat, |i: int| self.byte)
    }

    closed spec fn fails_next(&self) -> bool {
        false
    }

    closed spec fn next_error(&self) -> Seq<char> {
        Seq::empty()
    }

    closed spec fn next_amount(&self, buf_len: nat) -> nat {
        if buf_len <= self.left as nat {
            buf_len
        } else {
            self.left as nat
        }
    }

    fn read(&mut self, buf: &mut Vec<u8>) -> (r: Result<usize, ReadError>) {
        let n = if buf.len() <= self.left {
            buf.len()
        } else {
            self.left
        };
        let mut i: usize = 0;
        while i < n
            invariant
                i <= n,
                n as int <= buf@.len() as int,
                n <= self.left,
                self.byte == old(self).byte,
                self.left == old(self).left,
                buf@.len() == old(buf)@.len(),
                forall|j: int| 0 <= j < i ==> buf@[j] == self.byte,
                forall|j: int| i <= j < buf@.len() ==> buf@[j] == old(buf)@[j],
            decreases n - i,
        {
            buf.set(i, self.byte);
            i = i + 1;
        }
        self.left = self.left - n;
        proof {
            assert(buf@.subrange(0, n as int) =~= old(self).remaining().subrange(0, n as int));
            assert(buf@.skip(n as int) =~= old(buf)@.skip(n as int));
            assert(self.remaining() =~= old(self).remaining().skip(n as int));
        }
        Ok(n)
    }
}

/// A source that behaves like its inner source except on one chosen call,
/// which fails with a fixed error message instead of touching the inner
/// source. After the failing call it goes back to delegating, so a caller
/// that retries the same source reads on as if nothing had happened.
pub struct FlakySource<R> {
    inner: R,
    fail_in: Option<usize>,
    message: String,
}

impl<R: Source> FlakySource<R> {
    /// A wrapper that always delegates and never fails of its own accord.
    pub fn good(inner: R) -> (s: FlakySource<R>)
        ensures
            s.remaining() == inner.remaining(),
            s.fails_next() == inner.fails_next(),
            s.next_error() == inner.next_error(),
            forall|l: nat| #[trigger] s.next_amount(l) == inner.next_amount(l),
    {
        FlakySource { inner, fail_in: None, message: String::new() }
    }

    /// A wrapper whose read call number `fail_at` (counting from zero) fails
    /// with `message`; every other call delegates to `inner`.
    pub fn broken(inner: R, fail_at: usize, message: String) -> (s: FlakySource<R>)
        ensures
            s.remaining() == inner.remaining(),
            s.fails_next() == (fail_at == 0 || inner.fails_next()),
            fail_at == 0 ==> s.next_error() == message@,
            fail_at != 0 ==> s.next_error() == inner.next_error(),
            forall|l: nat| #[trigger] s.next_amount(l) == inner.next_amount(l),
    {
        FlakySource { inner, fail_in: Some(fail_at), message }
    }
}

impl<R: Source> Source for FlakySource<R> {
    closed spec fn remaining(&self) -> Seq<u8> {
        self.inner.remaining()
    }

    closed spec fn fails_next(&self) -> bool {
        if self.fail_in == Some(0usize) {
            true
        } else {
            self.inner.fails_next()
        }
    }

    closed spec fn next_error(&self) -> Seq<char> {
        if self.fail_in == Some(0usize) {
            self.message@
        } else {
            self.inner.next_error()
        }
    }

    closed spec fn next_amount(&self, buf_len: nat) -> nat {
        self.inner.next_amount(buf_len)
    }

    fn read(&mut self, buf: &mut Vec<u8>) -> (r: Result<usize, ReadError>) {
        match self.fail_in {
            Some(k) => {
                if k == 0 {
                    self.fail_in = None;
                    return Err(ReadError::new(self.message.clone()));
                }
                self.fail_in = Some(k - 1);
            },
            None => {},
        }
        self.inner.read(buf)
    }
}

/// A producer that hands out the elements of a vector, front to back.
pub struct VecProducer<R> {
    items: Vec<R>,
}

impl<R: Source> VecProducer<R> {
    /// A producer over the sources of `items`, in order.
    pub fn new(items: Vec<R>) -> (p: VecProducer<R>)
        ensures
            p.upcoming() == items@,
    {
        VecProducer { items }
    }
}

impl<R: Source> SourceProducer<R> for VecProducer<R> {
    closed spec fn upcoming(&self) -> Seq<R> {
        self.items@
    }

    fn next(&mut self) -> (r: Option<R>) {
        if self.items.len() == 0 {
            None
        } else {
            let s = self.items.remove(0);
            proof {
                assert(self.items@ =~= old(self).items@.skip(1));
            }
            Some(s)
        }
    }
}

} // verus!
