//! A byte source decorator that never delivers more than a declared limit.

use vstd::prelude::*;
use crate::bytes::subvec;
use crate::error::StoreError;

verus! {

pub open spec fn min2(a: int, b: int) -> int {
    if a < b {
        a
    } else {
        b
    }
}

/// A reader over an in-memory byte source that enforces a byte limit: it
/// rejects, rather than silently truncates, any request that the source would
/// satisfy with more bytes than the limit still allows.
pub struct BoundedReader {
    /// The underlying source's bytes.
    pub source: Vec<u8>,
    /// How many bytes of the source have been consumed.
    pub pos: usize,
    /// How many more bytes may be delivered.
    pub limit: u64,
    /// Ghost count of bytes exposed or consumed so far.
    pub delivered: Ghost<nat>,
    /// Ghost copy of the construction-time limit.
    pub budget: Ghost<nat>,
}

impl BoundedReader {
    pub open spec fn wf(self) -> bool {
        self.pos <= self.source@.len() && self.delivered@ + self.limit == self.budget@
    }

    /// How many bytes the underlying source still offers.
    pub open spec fn avail(self) -> int {
        self.source@.len() - self.pos
    }

    /// How many bytes the underlying source would hand over for a request of
    /// `want` bytes: the request is clamped to one byte past the limit, as a
    /// tripwire, and the source cannot give more than it has.
    pub open spec fn grant(want: int, limit: int, avail: int) -> int {
        min2(min2(want, limit + 1), avail)
    }

    pub fn new(source: Vec<u8>, limit: u64) -> (r: BoundedReader)
        ensures
            r.wf(),
            r.source@ == source@,
            r.pos == 0,
            r.limit == limit,
            r.delivered@ == 0,
            r.budget@ == limit,
    {
        BoundedReader {
            source,
            pos: 0,
            limit,
            delivered: Ghost(0),
            budget: Ghost(limit as nat),
        }
    }

    pub fn available(&self) -> (r: usize)
        requires
            self.wf(),
        ensures
            r == self.avail(),
    {
        self.source.len() - self.pos
    }

    /// Read up to `want` bytes. Fails with an overrun exactly when the source
    /// would deliver more bytes than the remaining limit; otherwise hands back
    /// the granted bytes and shrinks the limit by their number.
    pub fn read(&mut self, want: usize) -> (r: Result<Vec<u8>, StoreError>)
        requires
            old(self).wf(),
        ensures
            final(self).wf(),
            final(self).source@ == old(self).source@,
            final(self).budget == old(self).budget,
            ({
                let g = Self::grant(want as int, old(self).limit as int, old(self).avail());
                if g > old(self).limit {
                    r == Err::<Vec<u8>, StoreError>(StoreError::Overrun)
                        && *final(self) == *old(self)
                } else {
                    (r matches Ok(v) && v@ == old(self).source@.subrange(
                        old(self).pos as int,
                        old(self).pos + g,
                    ))
                        && final(self).pos == old(self).pos + g
                        && final(self).limit == old(self).limit - g
                        && final(self).delivered@ == old(self).delivered@ + g
                }
            }),
    {
        let avail: usize = self.source.len() - self.pos;
        let eff: u64 = if (want as u64) > self.limit {
            self.limit + 1
        } else {
            want as u64
        };
        let granted: u64 = if eff > (avail as u64) {
            avail as u64
        } else {
            eff
        };
        if granted > self.limit {
            return Err(StoreError::Overrun);
        }
        let g: usize = granted as usize;
        let out = subvec(&self.source, self.pos, self.pos + g);
        self.pos = self.pos + g;
        self.limit = self.limit - granted;
        proof {
            self.delivered@ = self.delivered@ + g as nat;
        }
        Ok(out)
    }

    /// Look at the bytes the source has buffered, truncated to the remaining
    /// limit: peeking never reveals bytes beyond it.
    pub fn peek(&self) -> (r: Vec<u8>)
        requires
            self.wf(),
        ensures
            r@ == self.source@.subrange(
                self.pos as int,
                self.pos + min2(self.avail(), self.limit as int),
            ),
    {
        let n: usize = if (self.source.len() - self.pos) as u64 <= self.limit {
            self.source.len() - self.pos
        } else {
            self.limit as usize
        };
        subvec(&self.source, self.pos, self.pos + n)
    }

    /// Consume `amount` peeked bytes: the limit drops by `min(amount, limit)`.
    pub fn consume(&mut self, amount: usize)
        requires
            old(self).wf(),
        ensures
            final(self).wf(),
            final(self).source@ == old(self).source@,
            final(self).budget == old(self).budget,
            ({
                let amt = min2(amount as int, old(self).limit as int);
                let adv = min2(amt, old(self).avail());
                final(self).limit == old(self).limit - amt
                    && final(self).pos == old(self).pos + adv
                    && final(self).delivered@ == old(self).delivered@ + amt
            }),
    {
        let amt: u64 = if (amount as u64) <= self.limit {
            amount as u64
        } else {
            self.limit
        };
        let avail: usize = self.source.len() - self.pos;
        let adv: usize = if amt <= (avail as u64) {
            amt as usize
        } else {
            avail
        };
        self.pos = self.pos + adv;
        self.limit = self.limit - amt;
        proof {
            self.delivered@ = self.delivered@ + amt as nat;
        }
    }
}

/// However a reader has been used, the bytes it has handed out or consumed
/// never exceed the limit it was constructed with.
pub proof fn lemma_exposure_bounded(r: BoundedReader)
    requires
        r.wf(),
    ensures
        r.delivered@ <= r.budget@,
{
}

/// Over a source that offers more than the remaining limit, a request for
/// more than the limit is granted one byte too many and is therefore
/// rejected, before that byte reaches the caller.
pub proof fn lemma_overrun_rejected(want: int, limit: int, avail: int)
    requires
        0 <= limit,
        avail > limit,
        want > limit,
    ensures
        BoundedReader::grant(want, limit, avail) > limit,
{
}

} // verus!
