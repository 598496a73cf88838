//! The host console that reads the kernel's log frames off the serial line.
use vstd::prelude::*;

pub mod console;

verus! {

/// The index just past the first zero byte of `src`, which ends a frame.
pub open spec fn frame_end(src: Seq<u8>) -> Option<int>
    decreases src.len(),
{
    if src.len() == 0 {
        None
    } else if src[0] == 0 {
        Some(1)
    } else {
        match frame_end(src.drop_first()) {
            Some(n) => Some(n + 1),
            None => None,
        }
    }
}

proof fn lemma_frame_end(src: Seq<u8>, i: int)
    requires
        0 <= i < src.len(),
        forall|k: int| 0 <= k < i ==> src[k] != 0,
    ensures
        frame_end(src) == (if src[i] == 0 {
            Some(i + 1)
        } else {
            match frame_end(src.skip(i + 1)) {
                Some(n) => Some(n + i + 1),
                None => None::<int>,
            }
        }),
    decreases i,
{
    if i > 0 {
        lemma_frame_end(src.drop_first(), i - 1);
        assert(src.drop_first().skip(i) =~= src.skip(i + 1));
    } else {
        assert(src.skip(1) =~= src.drop_first());
    }
}

proof fn lemma_frame_end_none(src: Seq<u8>)
    requires
        forall|k: int| 0 <= k < src.len() ==> src[k] != 0,
    ensures
        frame_end(src) is None,
    decreases src.len(),
{
    if src.len() > 0 {
        lemma_frame_end_none(src.drop_first());
    }
}

/// Cuts the log stream into frames, each ended by a zero byte.
pub struct LogDecoder;

impl LogDecoder {
    pub fn new() -> (r: Self) {
        LogDecoder
    }

    /// Takes the first whole frame, its ending zero included, off the front
    /// of `src`; `None`, with `src` left as it is, until one has come. The
    /// frame is handed out as it came, still encoded: decoding its payload
    /// is the frame codec's work, which this library does not hold.
    pub fn take_frame(&mut self, src: &mut Vec<u8>) -> (r: Option<Vec<u8>>)
        ensures
            match frame_end(old(src)@) {
                Some(n) => (r matches Some(frame) && frame@ == old(src)@.take(n) && final(src)@ == old(src)@.skip(n)),
                None => r is None && final(src)@ == old(src)@,
            },
    {
        let len = src.len();
        let mut i: usize = 0;
        while i < len
            invariant
                i <= len,
                len == src@.len(),
                src@ == old(src)@,
                forall|k: int| 0 <= k < i ==> src@[k] != 0,
            decreases len - i,
        {
            if src[i] == 0 {
                proof {
                    lemma_frame_end(src@, i as int);
                }
                let n = i + 1;
                let mut frame: Vec<u8> = Vec::new();
                let mut rest: Vec<u8> = Vec::new();
                let mut k: usize = 0;
                while k < len
                    invariant
                        k <= len,
                        n <= len,
                        len == src@.len(),
                        src@ == old(src)@,
                        frame_end(old(src)@) == Some(n as int),
                        frame@ == src@.take(if k < n { k as int } else { n as int }),
                        rest@ == (if k <= n { Seq::<u8>::empty() } else { src@.subrange(n as int, k as int) }),
                    decreases len - k,
                {
                    if k < n {
                        frame.push(src[k]);
                        proof {
                            assert(frame@ =~= src@.take(k + 1));
                        }
                    } else {
                        rest.push(src[k]);
                        proof {
                            assert(rest@ =~= src@.subrange(n as int, k + 1));
                        }
                    }
                    k = k + 1;
                }
                proof {
                    assert(rest@ =~= src@.skip(n as int));
                }
                *src = rest;
                return Some(frame);
            }
            i = i + 1;
        }
        proof {
            lemma_frame_end_none(src@);
        }
        None
    }
}

} // verus!
