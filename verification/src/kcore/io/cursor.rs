//! A writer into a fixed buffer.
use vstd::prelude::*;
use vstd::string::StringSliceAdditionalSpecFns;

verus! {

/// Writes text into `data`; `cursor` is where the next text goes. A write
/// that does not fit moves the cursor on all the same and fails.
pub struct Cursor {
    data: Vec<u8>,
    cursor: usize,
}

/// A write did not fit.
#[derive(Clone, Copy, PartialEq, Eq, Structural, Debug)]
pub struct WriteError;

impl Cursor {
    /// The bytes of the buffer.
    pub closed spec fn spec_data(&self) -> Seq<u8> {
        self.data@
    }

    /// Where the next write goes.
    pub closed spec fn spec_cursor(&self) -> usize {
        self.cursor
    }

    /// A cursor at the start of `data`.
    pub fn new(data: Vec<u8>) -> (r: Self)
        ensures
            r.spec_data() == data@,
            r.spec_cursor() == 0,
    {
        Cursor { data, cursor: 0 }
    }

    /// What was written so far.
    pub fn buffer(&self) -> (r: &[u8])
        requires
            self.spec_cursor() <= self.spec_data().len(),
        ensures
            r@ == self.spec_data().take(self.spec_cursor() as int),
    {
        let s = vstd::slice::slice_subrange(self.data.as_slice(), 0, self.cursor);
        proof {
            assert(s@ =~= self.data@.take(self.cursor as int));
        }
        s
    }

    /// Writes the bytes of `s` at the cursor and moves it past them; where
    /// they do not fit, the buffer stays as it is and the write fails.
    pub fn write_str(&mut self, s: &str) -> (r: Result<(), WriteError>)
        requires
            old(self).spec_cursor() + s.spec_bytes().len() <= usize::MAX,
        ensures
            final(self).spec_cursor() == old(self).spec_cursor() + s.spec_bytes().len(),
            r is Ok <==> final(self).spec_cursor() <= old(self).spec_data().len(),
            r is Ok ==> final(self).spec_data() == old(self).spec_data().take(old(self).spec_cursor() as int)
                + s.spec_bytes() + old(self).spec_data().skip(final(self).spec_cursor() as int),
            r is Err ==> final(self).spec_data() == old(self).spec_data(),
    {
        let bytes = s.as_bytes();
        let prev = self.cursor;
        self.cursor = self.cursor + bytes.len();
        if self.cursor > self.data.len() {
            Err(WriteError)
        } else {
            let n = bytes.len();
            let mut i: usize = 0;
            while i < n
                invariant
                    i <= n,
                    n == bytes@.len(),
                    prev + n == self.cursor,
                    self.cursor <= self.data@.len(),
                    self.data@.len() == old(self).data@.len(),
                    forall|k: int| 0 <= k < prev ==> self.data@[k] == old(self).data@[k],
                    forall|k: int| prev + i <= k < self.data@.len() ==> self.data@[k] == old(self).data@[k],
                    forall|k: int| 0 <= k < i ==> self.data@[prev + k] == bytes@[k],
                decreases n - i,
            {
                self.data.set(prev + i, bytes[i]);
                i = i + 1;
            }
            proof {
                assert(self.data@ =~= old(self).data@.take(prev as int) + s.spec_bytes()
                    + old(self).data@.skip(self.cursor as int));
            }
            Ok(())
        }
    }
}

} // verus!
