//! Pull-based byte sources over foreign readable channels.

use vstd::prelude::*;
use vstd::math::min;
use crate::Fault;

verus! {

/// A readable byte channel owned by an outside collaborator.
///
/// `remaining` models the bytes the channel will deliver, in order;
/// `is_open` whether the handle may still be read or closed. A read
/// either delivers a non-empty prefix of the remaining bytes, signals
/// end-of-data, or fails with a collaborator fault; it never delivers
/// anything else. `close` may be called exactly once.
pub trait ByteChannel: Sized {
    spec fn remaining(&self) -> Seq<u8>;

    spec fn is_open(&self) -> bool;

    /// One read call: at most `max` bytes, `None` at end-of-data.
    fn read_chunk(&mut self, max: usize) -> (r: Result<Option<Vec<u8>>, Fault>)
        requires
            old(self).is_open(),
            max > 0,
        ensures
            final(self).is_open(),
            match r {
                Result::Ok(Option::Some(chunk)) => {
                    &&& 0 < chunk@.len() <= max
                    &&& chunk@.len() <= old(self).remaining().len()
                    &&& chunk@ == old(self).remaining().take(chunk@.len() as int)
                    &&& final(self).remaining() == old(self).remaining().skip(chunk@.len() as int)
                },
                Result::Ok(Option::None) => {
                    &&& old(self).remaining().len() == 0
                    &&& final(self).remaining() == old(self).remaining()
                },
                Result::Err(e) => final(self).remaining() == old(self).remaining() && (e
                    == Fault::External || e == Fault::Io),
            },
    ;

    /// Releases the handle. Called at most once.
    fn close(&mut self) -> (r: Result<(), Fault>)
        requires
            old(self).is_open(),
        ensures
            !final(self).is_open(),
            r matches Err(e) ==> e == Fault::External || e == Fault::Io,
    ;
}

/// An in-memory channel: a byte buffer delivered in chunks of at most
/// `max_chunk` bytes per read. This implementation's reads and close
/// happen to never fault, though the trait leaves faults open.
#[derive(Debug)]
pub struct MemoryChannel {
    pub data: Vec<u8>,
    pub pos: usize,
    pub opened: bool,
    pub max_chunk: usize,
}

impl MemoryChannel {
    pub fn new(data: Vec<u8>, max_chunk: usize) -> (r: MemoryChannel)
        ensures
            r.is_open(),
            r.remaining() == data@,
    {
        let r = MemoryChannel { data, pos: 0, opened: true, max_chunk };
        proof {
            assert(r.remaining() =~= r.data@);
        }
        r
    }

    /// Whether the channel was closed.
    pub fn closed(&self) -> (r: bool)
        ensures
            r == !self.is_open(),
    {
        !self.opened
    }
}

impl ByteChannel for MemoryChannel {
    open spec fn remaining(&self) -> Seq<u8> {
        if self.opened && self.pos <= self.data@.len() {
            self.data@.skip(self.pos as int)
        } else {
            Seq::empty()
        }
    }

    open spec fn is_open(&self) -> bool {
        self.opened
    }

    fn read_chunk(&mut self, max: usize) -> (r: Result<Option<Vec<u8>>, Fault>) {
        if self.pos >= self.data.len() {
            return Ok(Option::None);
        }
        let avail = self.data.len() - self.pos;
        let cap: usize = if self.max_chunk == 0 {
            1
        } else {
            self.max_chunk
        };
        let mut n = max;
        if n > cap {
            n = cap;
        }
        if n > avail {
            n = avail;
        }
        let mut chunk: Vec<u8> = Vec::new();
        let base = self.pos;
        let stop = self.pos + n;
        let mut k = base;
        while k < stop
            invariant
                base == self.pos,
                base <= k <= stop,
                stop == base + n,
                stop <= self.data@.len(),
                chunk@.len() == k - base,
                forall|j: int| 0 <= j < k - base ==> chunk@[j] == self.data@[self.pos + j],
            decreases stop - k,
        {
            chunk.push(self.data[k]);
            k += 1;
        }
        let ghost pre = *self;
        self.pos = self.pos + n;
        proof {
            assert(chunk@ =~= pre.remaining().take(n as int));
            assert(self.remaining() =~= pre.remaining().skip(n as int));
        }
        Ok(Option::Some(chunk))
    }

    fn close(&mut self) -> (r: Result<(), Fault>) {
        self.opened = false;
        Ok(())
    }
}

/// Adapts one channel into a byte source that reads exact runs,
/// optionally bounded to a byte budget (a file region's length), with
/// an idempotent close. End-of-data closes the channel.
#[derive(Debug)]
pub struct ReadableByteChannelReader<C: ByteChannel> {
    pub channel: C,
    pub closed: bool,
    pub limit: Option<u64>,
}

impl<C: ByteChannel> ReadableByteChannelReader<C> {
    /// The channel is closed exactly when the adapter says so.
    pub open spec fn wf(&self) -> bool {
        !self.closed ==> self.channel.is_open()
    }

    /// The bytes this source will still deliver: nothing once closed,
    /// and never more than the budget.
    pub open spec fn remaining(&self) -> Seq<u8> {
        if self.closed {
            Seq::empty()
        } else {
            match self.limit {
                Option::None => self.channel.remaining(),
                Option::Some(l) => self.channel.remaining().take(
                    min(l as int, self.channel.remaining().len() as int),
                ),
            }
        }
    }

    pub fn new(channel: C, limit: Option<u64>) -> (r: ReadableByteChannelReader<C>)
        requires
            channel.is_open(),
        ensures
            r.wf(),
            !r.closed,
            r.channel == channel,
            r.limit == limit,
    {
        ReadableByteChannelReader { channel, closed: false, limit }
    }

    /// Closes the underlying channel on the first call; any further
    /// call does nothing at all.
    pub fn close(&mut self) -> (r: Result<(), Fault>)
        requires
            old(self).wf(),
        ensures
            final(self).wf(),
            final(self).closed,
            final(self).remaining() == Seq::<u8>::empty(),
            old(self).closed ==> *final(self) == *old(self) && r is Ok,
            r matches Err(e) ==> e == Fault::External || e == Fault::Io,
    {
        if self.closed {
            return Ok(());
        }
        self.closed = true;
        self.channel.close()
    }

    /// Reads exactly `n` bytes, or as many as the source still has:
    /// fewer only at end-of-data, which releases the channel. A read
    /// on a closed source is clean end-of-data, never a fault.
    pub fn read_fully(&mut self, n: usize) -> (r: Result<Vec<u8>, Fault>)
        requires
            old(self).wf(),
        ensures
            final(self).wf(),
            final(self).limit is Some <==> old(self).limit is Some,
            old(self).closed ==> r is Ok && *final(self) == *old(self),
            r matches Ok(v) ==> {
                &&& v@.len() <= n
                &&& v@.len() <= old(self).remaining().len()
                &&& v@ == old(self).remaining().take(v@.len() as int)
                &&& final(self).remaining() == old(self).remaining().skip(v@.len() as int)
                &&& (v@.len() < n ==> v@.len() == old(self).remaining().len() && final(self).remaining() == Seq::<u8>::empty())
                &&& (v@.len() < n ==> final(self).closed)
            },
            r matches Err(e) ==> e == Fault::External || e == Fault::Io,
    {
        let mut out: Vec<u8> = Vec::new();
        let mut done = self.closed;
        proof {
            assert(out@ =~= old(self).remaining().take(0));
            assert(self.remaining() =~= old(self).remaining().skip(0));
            if self.closed {
                assert(old(self).remaining() =~= Seq::<u8>::empty());
            }
        }
        while !done && out.len() < n
            invariant
                out@.len() <= n,
                self.wf(),
                self.limit is Some <==> old(self).limit is Some,
                !done ==> !self.closed,
                out@.len() <= old(self).remaining().len(),
                out@ == old(self).remaining().take(out@.len() as int),
                self.remaining() == old(self).remaining().skip(out@.len() as int),
                done ==> self.remaining() == Seq::<u8>::empty(),
                done ==> self.closed,
                old(self).closed ==> done && *self == *old(self) && out@.len() == 0,
            decreases
                    (if done {
                        0int
                    } else {
                        1int
                    }),
                    n - out@.len(),
        {
            let want = n - out.len();
            let mut ask = want;
            let mut budget_empty = false;
            match &self.limit {
                Option::None => {},
                Option::Some(l) => {
                    if *l == 0 {
                        budget_empty = true;
                    } else if *l < ask as u64 {
                        ask = *l as usize;
                    }
                },
            }
            if budget_empty {
                let ghost pre = *self;
                self.closed = true;
                done = true;
                let cr = self.channel.close();
                proof {
                    assert(pre.remaining() =~= Seq::<u8>::empty());
                    assert(self.remaining() =~= pre.remaining());
                }
                if let Err(e) = cr {
                    return Err(e);
                }
            } else {
                let ghost pre = *self;
                let cr = self.channel.read_chunk(ask);
                match cr {
                    Err(e) => {
                        return Err(e);
                    },
                    Ok(Option::None) => {
                        let ghost pre2 = *self;
                        self.closed = true;
                        done = true;
                        let cr2 = self.channel.close();
                        proof {
                            assert(pre2.remaining() =~= Seq::<u8>::empty());
                            assert(self.remaining() =~= pre2.remaining());
                        }
                        if let Err(e) = cr2 {
                            return Err(e);
                        }
                    },
                    Ok(Option::Some(chunk)) => {
                        let c = chunk.len();
                        let ghost oldout = out@;
                        push_all(&mut out, &chunk);
                        match &mut self.limit {
                            Option::None => {},
                            Option::Some(l) => {
                                proof {
                                    assert(c <= *l);
                                }
                                *l = *l - c as u64;
                            },
                        }
                        proof {
                            let orem = old(self).remaining();
                            let chrem = pre.channel.remaining();
                            assert(pre.remaining() == orem.skip(oldout.len() as int));
                            assert(chunk@ == chrem.take(c as int));
                            match pre.limit {
                                Option::None => {
                                    assert(chunk@ =~= pre.remaining().take(c as int));
                                    assert(self.remaining() =~= pre.remaining().skip(c as int));
                                },
                                Option::Some(l) => {
                                    assert(c <= l);
                                    assert(c <= chrem.len());
                                    assert(pre.remaining().len() == min(
                                        l as int,
                                        chrem.len() as int,
                                    ));
                                    assert forall|k: int| 0 <= k < pre.remaining().len() implies
                                        pre.remaining()[k] == chrem[k] by {}
                                    assert forall|k: int| 0 <= k < c implies chunk@[k]
                                        == pre.remaining().take(c as int)[k] by {
                                        assert(chunk@[k] == chrem[k]);
                                        assert(pre.remaining().take(c as int)[k]
                                            == pre.remaining()[k]);
                                    }
                                    assert(chunk@ =~= pre.remaining().take(c as int));
                                    let chnew = chrem.skip(c as int);
                                    assert(self.channel.remaining() == chnew);
                                    assert(self.remaining().len() == min(
                                        (l - c) as int,
                                        chnew.len() as int,
                                    ));
                                    assert forall|k: int| 0 <= k < self.remaining().len() implies
                                        self.remaining()[k] == pre.remaining().skip(c as int)[k] by {
                                        assert(self.remaining()[k] == chnew[k]);
                                        assert(chnew[k] == chrem[c + k]);
                                        assert(pre.remaining().skip(c as int)[k]
                                            == pre.remaining()[c + k]);
                                        assert(pre.remaining()[c + k] == chrem[c + k]);
                                    }
                                    assert(self.remaining() =~= pre.remaining().skip(c as int));
                                },
                            }
                            assert(c <= pre.remaining().len());
                            assert(pre.remaining().len() == orem.len() - oldout.len());
                            assert forall|k: int| 0 <= k < out@.len() implies out@[k] == orem[k] by {
                                if k < oldout.len() {
                                    assert(out@[k] == oldout[k]);
                                    assert(oldout[k] == orem.take(oldout.len() as int)[k]);
                                } else {
                                    assert(out@[k] == chunk@[k - oldout.len()]);
                                    assert(chunk@[k - oldout.len()] == pre.remaining().take(
                                        c as int,
                                    )[k - oldout.len()]);
                                    assert(pre.remaining()[k - oldout.len()] == orem.skip(
                                        oldout.len() as int,
                                    )[k - oldout.len()]);
                                }
                            }
                            assert(out@ =~= orem.take(out@.len() as int));
                            assert forall|k: int| 0 <= k < self.remaining().len() implies
                                self.remaining()[k] == orem.skip(out@.len() as int)[k] by {
                                assert(self.remaining()[k] == pre.remaining().skip(c as int)[k]);
                                assert(pre.remaining().skip(c as int)[k] == pre.remaining()[c + k]);
                                assert(pre.remaining()[c + k] == orem.skip(oldout.len() as int)[c
                                    + k]);
                            }
                            assert(self.remaining() =~= orem.skip(out@.len() as int));
                        }
                    },
                }
            }
        }
        proof {
            if out@.len() < n {
                assert(self.remaining() == Seq::<u8>::empty());
                assert(out@.len() == old(self).remaining().len());
            }
        }
        Ok(out)
    }
}

/// Appends every byte of `add` to `out`.
fn push_all(out: &mut Vec<u8>, add: &Vec<u8>)
    ensures
        final(out)@ == old(out)@ + add@,
{
    let n = add.len();
    let mut i: usize = 0;
    proof {
        assert(out@ =~= old(out)@ + add@.subrange(0, 0));
    }
    while i < n
        invariant
            n == add@.len(),
            0 <= i <= n,
            out@ == old(out)@ + add@.subrange(0, i as int),
        decreases n - i,
    {
        out.push(add[i]);
        proof {
            assert(out@ =~= old(out)@ + add@.subrange(0, (i + 1) as int));
        }
        i += 1;
    }
    proof {
        assert(old(out)@ + add@.subrange(0, n as int) =~= old(out)@ + add@);
    }
}

} // verus!
