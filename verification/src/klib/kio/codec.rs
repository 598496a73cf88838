//! Encoders that turn items into bytes, and decoders that turn bytes back.
use vstd::prelude::*;

use crate::klib::kio::Error;

verus! {

/// Turns items into bytes.
pub trait Encoder<Item> {
    type Error: From<Error>;

    /// Encoding `item` in this state, with `dst` as the buffer, may give
    /// `r` and leave the buffer as `out`.
    spec fn encodes(&self, item: Item, dst: Seq<u8>, r: Result<usize, Self::Error>, out: Seq<u8>) -> bool;

    /// Writes the bytes of `item` at the start of `dst`, which keeps its
    /// length, and says how many there are.
    fn encode(&mut self, item: Item, dst: &mut Vec<u8>) -> (r: Result<usize, Self::Error>)
        ensures
            final(dst)@.len() == old(dst)@.len(),
            r matches Ok(n) ==> n <= final(dst)@.len(),
            old(self).encodes(item, old(dst)@, r, final(dst)@),
    ;
}

/// Turns bytes into items: `None` until `src` holds a whole one.
pub trait Decoder {
    type Item;
    type Error: From<Error>;

    fn decode(&mut self, src: &[u8]) -> Result<Option<Self::Item>, Self::Error>;
}

/// Two encoders in a row: the first one encodes into `buffer`, the second
/// one encodes what the first one wrote.
pub struct Chained<First, Second> {
    pub buffer: Vec<u8>,
    pub first: First,
    pub second: Second,
}

impl<First, Second> Chained<First, Second> {
    pub fn new(buffer: Vec<u8>, first: First, second: Second) -> (r: Self)
        ensures
            r.buffer == buffer,
            r.first == first,
            r.second == second,
    {
        Chained { buffer, first, second }
    }
}

impl<Item, First: Encoder<Item>, Second: Encoder<Vec<u8>, Error = First::Error>> Encoder<Item> for Chained<First, Second> {
    type Error = First::Error;

    /// The first encoder encodes `item` into the buffer; where it fails, its
    /// error is handed on and `dst` is left as it is; else the second one
    /// encodes the bytes it wrote into `dst`.
    open spec fn encodes(&self, item: Item, dst: Seq<u8>, r: Result<usize, First::Error>, out: Seq<u8>) -> bool {
        exists|r1: Result<usize, First::Error>, b: Seq<u8>|
            #[trigger] self.first.encodes(item, self.buffer@, r1, b) && match r1 {
                Err(e) => r == Err::<usize, First::Error>(e) && out == dst,
                Ok(n) => exists|v: Vec<u8>| v@ == b.take(n as int) && #[trigger] self.second.encodes(v, dst, r, out),
            }
    }

    fn encode(&mut self, item: Item, dst: &mut Vec<u8>) -> (r: Result<usize, First::Error>) {
        let ghost it = item;
        let ghost old_self = *self;
        let first = self.first.encode(item, &mut self.buffer);
        let ghost b = self.buffer@;
        let n = match first {
            Ok(n) => n,
            Err(e) => {
                assert(old_self.first.encodes(it, old_self.buffer@, first, b));
                return Err(e);
            },
        };
        let bytes = copy_prefix(&self.buffer, n);
        let ghost v = bytes;
        let r = self.second.encode(bytes, dst);
        assert(old_self.first.encodes(it, old_self.buffer@, first, b));
        assert(v@ == b.take(n as int) && old_self.second.encodes(v, old(dst)@, r, dst@));
        r
    }
}

/// The first `n` bytes of `v`, copied.
fn copy_prefix(v: &Vec<u8>, n: usize) -> (r: Vec<u8>)
    requires
        n <= v@.len(),
    ensures
        r@ == v@.take(n as int),
{
    let mut r: Vec<u8> = Vec::new();
    let mut i: usize = 0;
    while i < n
        invariant
            i <= n <= v@.len(),
            r@ == v@.take(i as int),
        decreases n - i,
    {
        r.push(v[i]);
        i = i + 1;
        proof {
            assert(r@ =~= v@.take(i as int));
        }
    }
    r
}

} // verus!
