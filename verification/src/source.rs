//! Where a stream gets its bytes from.
use vstd::prelude::*;

verus! {

/// A source of bytes.
///
/// A source delivers its bytes in order, as many at a time as it wants. It reports its end by
/// delivering none. It may fail without delivering anything, and may be asked again then.
///
/// A source that is not verified has nothing to say of its ghost state, of which nothing is known
/// then.
pub trait Source {
    /// The bytes that the source delivers before it reports its end.
    closed spec fn pending(&self) -> Seq<u8> {
        arbitrary()
    }

    /// Whether the source may fail.
    closed spec fn faulty(&self) -> bool {
        arbitrary()
    }

    /// Whether the source may fail with an unexpected end before its end.
    closed spec fn abrupt(&self) -> bool {
        arbitrary()
    }

    /// How many times the source may still be interrupted.
    closed spec fn interruptions(&self) -> nat {
        arbitrary()
    }

    /// Whether the source, asked for up to `request` bytes, may answer `r` and turn into `after`.
    closed spec fn answers(
        &self,
        after: &Self,
        request: nat,
        r: Result<usize, std::io::ErrorKind>,
    ) -> bool {
        arbitrary()
    }

    /// Fills the beginning of `buf` with the next bytes of the source, and returns their number.
    fn read(&mut self, buf: &mut [u8]) -> (r: Result<usize, std::io::ErrorKind>)
        requires
            old(buf)@.len() > 0,
        ensures
            old(self).answers(final(self), old(buf)@.len(), r),
            final(buf)@.len() == old(buf)@.len(),
            final(self).faulty() == old(self).faulty(),
            final(self).abrupt() == old(self).abrupt(),
            final(self).interruptions() <= old(self).interruptions(),
            match r {
                Ok(n) => if n == 0 {
                    old(self).pending().len() == 0
                } else {
                    &&& n <= old(buf)@.len()
                    &&& n <= old(self).pending().len()
                    &&& final(buf)@.take(n as int) == old(self).pending().take(n as int)
                    &&& final(self).pending() == old(self).pending().skip(n as int)
                },
                Err(kind) => {
                    &&& final(self).pending() == old(self).pending()
                    &&& kind is UnexpectedEof ==> old(self).pending().len() == 0 || old(
                        self,
                    ).abrupt()
                    &&& if kind is Interrupted {
                        final(self).interruptions() < old(self).interruptions()
                    } else {
                        old(self).faulty()
                    }
                },
            },
    ;
}

/// Whether `source`, asked for up to `request` bytes again each time that it is interrupted, which
/// happens `retries` times, may answer `r` at last and turn into `after`.
pub open spec fn answers_after<R: Source>(
    source: R,
    after: R,
    request: nat,
    r: Result<usize, std::io::ErrorKind>,
    retries: nat,
) -> bool
    decreases retries,
{
    if retries == 0 {
        source.answers(&after, request, r)
    } else {
        exists|next: R|
            {
                &&& #[trigger] source.answers(
                    &next,
                    request,
                    Err(std::io::ErrorKind::Interrupted),
                )
                &&& answers_after(next, after, request, r, (retries - 1) as nat)
            }
    }
}

/// Whether `source`, asked for up to `request` bytes again each time that it is interrupted, may
/// answer `r` at last and turn into `after`.
pub open spec fn answers_at_last<R: Source>(
    source: R,
    after: R,
    request: nat,
    r: Result<usize, std::io::ErrorKind>,
) -> bool {
    &&& r != Err::<usize, std::io::ErrorKind>(std::io::ErrorKind::Interrupted)
    &&& exists|retries: nat| answers_after(source, after, request, r, retries)
}

/// Bytes in memory never fail.
impl<'a> Source for &'a [u8] {
    open spec fn pending(&self) -> Seq<u8> {
        self@
    }

    open spec fn faulty(&self) -> bool {
        false
    }

    open spec fn interruptions(&self) -> nat {
        0
    }

    open spec fn abrupt(&self) -> bool {
        false
    }

    /// A slice delivers as many bytes as it is asked for, or all that are left.
    open spec fn answers(
        &self,
        after: &Self,
        request: nat,
        r: Result<usize, std::io::ErrorKind>,
    ) -> bool {
        match r {
            Ok(n) => {
                &&& n == if self@.len() < request {
                    self@.len()
                } else {
                    request
                }
                &&& after@ == self@.skip(n as int)
            },
            Err(_) => false,
        }
    }

    fn read(&mut self, buf: &mut [u8]) -> (r: Result<usize, std::io::ErrorKind>) {
        let n: usize = if self.len() < buf.len() {
            self.len()
        } else {
            buf.len()
        };
        let ghost room = buf@.len();
        let mut i: usize = 0;
        while i < n
            invariant
                i <= n,
                n <= self@.len(),
                n <= room,
                buf@.len() == room,
                forall|j: int| 0 <= j < i ==> buf@[j] == self@[j],
            decreases n - i,
        {
            buf[i] = self[i];
            i = i + 1;
        }
        let (_, rest) = self.split_at(n);
        *self = rest;
        Ok(n)
    }
}

} // verus!
