//! Writers of bytes, and sinks that frame items into them.
use vstd::prelude::*;

use crate::klib::kio::codec::Encoder;
use crate::klib::kio::Error;

verus! {

/// Something that takes bytes. `sent` is what it has taken so far.
pub trait Write {
    /// The bytes taken so far.
    spec fn sent(&self) -> Seq<u8>;

    /// The writer is in a state where no write fails, and stays so.
    spec fn accepts(&self) -> bool;

    /// The error of the last write that failed, if one has.
    spec fn failure(&self) -> Option<Error>;

    /// Takes a prefix of `buffer`, at least one byte of it when there is
    /// one, and says how long it was; or fails, having taken nothing. A
    /// writer that accepts does not fail.
    fn write(&mut self, buffer: &[u8]) -> (r: Result<usize, Error>)
        ensures
            r matches Ok(n) ==> n <= buffer@.len() && (buffer@.len() > 0 ==> n > 0)
                && final(self).sent() == old(self).sent() + buffer@.take(n as int),
            r is Err ==> final(self).sent() == old(self).sent(),
            r matches Err(e) ==> final(self).failure() == Some(e),
            old(self).accepts() ==> r is Ok && final(self).accepts(),
    ;

    /// Writes the whole of `buffer`, handing each write what is left of it,
    /// or stops at the first failing write and hands its error on, having
    /// written a proper prefix of `buffer`; that error is then the writer's
    /// last failure. An empty `buffer` needs no
    /// write and succeeds; a writer that accepts takes all of it.
    fn write_all(&mut self, buffer: &[u8]) -> (r: Result<(), Error>)
        ensures
            buffer@.len() == 0 ==> r is Ok,
            old(self).accepts() ==> r is Ok && final(self).accepts(),
            r is Ok ==> final(self).sent() == old(self).sent() + buffer@,
            r is Err ==> exists|k: int| #![trigger buffer@.take(k)] 0 <= k < buffer@.len() && final(self).sent() == old(self).sent() + buffer@.take(k),
            r matches Err(e) ==> final(self).failure() == Some(e),
    {
        let mut at: usize = 0;
        let n = buffer.len();
        while at < n
            invariant
                0 <= at <= n,
                n == buffer@.len(),
                self.sent() == old(self).sent() + buffer@.take(at as int),
                old(self).accepts() ==> self.accepts(),
            decreases n - at,
        {
            let rest = slice_from(buffer, at);
            match self.write(rest) {
                Ok(w) => {
                    proof {
                        assert(buffer@.take(at as int) + rest@.take(w as int) =~= buffer@.take(at + w));
                    }
                    at = at + w;
                },
                Err(e) => {
                    assert(self.sent() == old(self).sent() + buffer@.take(at as int));
                    return Err(e);
                },
            }
        }
        proof {
            assert(buffer@.take(n as int) =~= buffer@);
        }
        Ok(())
    }
}

/// The bytes of `buffer` from `at` on.
pub fn slice_from(buffer: &[u8], at: usize) -> (r: &[u8])
    requires
        at <= buffer@.len(),
    ensures
        r@ == buffer@.skip(at as int),
{
    let n = buffer.len();
    let s = vstd::slice::slice_subrange(buffer, at, n);
    proof {
        assert(s@ =~= buffer@.skip(at as int));
    }
    s
}

/// Something that takes items one by one.
pub trait Sink<Item> {
    type Error;

    fn send(&mut self, item: Item) -> Result<(), Self::Error>;
}

/// Frames items with an encoder into a buffer and writes each frame out.
pub struct FramedWrite<W, E> {
    pub buffer: Vec<u8>,
    pub writer: W,
    pub encoder: E,
}

impl<W, E> FramedWrite<W, E> {
    /// Frames with `encoder` into `buffer` and writes to `writer`.
    pub fn new(buffer: Vec<u8>, writer: W, encoder: E) -> (r: Self)
        ensures
            r.buffer == buffer,
            r.writer == writer,
            r.encoder == encoder,
    {
        FramedWrite { buffer, writer, encoder }
    }
}

impl<W: Write, E> FramedWrite<W, E> {
    /// Encodes `item` into the buffer and writes the frame out: the buffer
    /// is left as the encoder leaves it; where the encoder fails, its error
    /// is handed on and nothing is written; else the start of the buffer the
    /// encoder filled is written out, all of it where the send succeeds. An
    /// empty frame needs no write and succeeds.
    pub fn send_frame<Item>(&mut self, item: Item) -> (r: Result<(), E::Error>)
        where
            E: Encoder<Item>,
        ensures
            framed_send(
                old(self).encoder,
                old(self).buffer@,
                old(self).writer.sent(),
                old(self).writer.accepts(),
                item,
                final(self).buffer@,
                final(self).writer.sent(),
                final(self).writer.failure(),
                r,
            ),
    {
        let ghost it = item;
        let ghost old_encoder = self.encoder;
        let ghost old_buffer = self.buffer@;
        let ghost old_sent = self.writer.sent();
        let encoded = self.encoder.encode(item, &mut self.buffer);
        let n = match encoded {
            Ok(n) => n,
            Err(e) => {
                assert(old_encoder.encodes(it, old_buffer, encoded, self.buffer@));
                return Err(e);
            },
        };
        let frame = vstd::slice::slice_subrange(self.buffer.as_slice(), 0, n);
        proof {
            assert(frame@ =~= self.buffer@.take(n as int));
            assert(old_encoder.encodes(it, old_buffer, encoded, self.buffer@));
        }
        match self.writer.write_all(frame) {
            Ok(()) => {
                assert(self.writer.sent() == old_sent + self.buffer@.take(n as int));
                Ok(())
            },
            Err(e) => {
                proof {
                    let k = choose|k: int|
                        #![trigger frame@.take(k)]
                        0 <= k < frame@.len() && self.writer.sent() == old_sent + frame@.take(k);
                    assert(frame@.take(k) =~= self.buffer@.take(k));
                }
                Err(E::Error::from(e))
            },
        }
    }
}

/// What sending `item` through an encoder in state `encoder` may do, with
/// the buffer `buffer` and a writer that has taken `sent` (and accepts every
/// write where `accepts`): leave the buffer as `buffer2`, the writer having
/// taken `sent2` and last failed with `failure`, and give `r`. Where the
/// frame cannot be written whole, a proper prefix of it has been, and the
/// error given is the writer's failure, converted.
pub open spec fn framed_send<E: Encoder<Item>, Item>(
    encoder: E,
    buffer: Seq<u8>,
    sent: Seq<u8>,
    accepts: bool,
    item: Item,
    buffer2: Seq<u8>,
    sent2: Seq<u8>,
    failure: Option<Error>,
    r: Result<(), E::Error>,
) -> bool {
    exists|r1: Result<usize, E::Error>|
        #[trigger] encoder.encodes(item, buffer, r1, buffer2) && match r1 {
            Err(e) => r == Err::<(), E::Error>(e) && sent2 == sent,
            Ok(n) => {
                &&& n <= buffer2.len()
                &&& n == 0 || accepts ==> r is Ok
                &&& r is Ok ==> sent2 == sent + buffer2.take(n as int)
                &&& r is Err ==> exists|k: int| #![trigger buffer2.take(k)] 0 <= k < n && sent2 == sent + buffer2.take(k)
                &&& r matches Err(x) ==> failure matches Some(e) && (<E::Error as vstd::std_specs::convert::FromSpec<Error>>::obeys_from_spec()
                    ==> x == <E::Error as vstd::std_specs::convert::FromSpec<Error>>::from_spec(e))
            },
        }
}

impl<W: Write, E: Encoder<Item>, Item> Sink<Item> for FramedWrite<W, E> {
    type Error = E::Error;

    /// `send_frame`.
    fn send(&mut self, item: Item) -> (r: Result<(), E::Error>)
        ensures
            framed_send(
                old(self).encoder,
                old(self).buffer@,
                old(self).writer.sent(),
                old(self).writer.accepts(),
                item,
                final(self).buffer@,
                final(self).writer.sent(),
                final(self).writer.failure(),
                r,
            ),
    {
        self.send_frame(item)
    }
}

} // verus!
