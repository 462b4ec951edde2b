//! The frame assembler: arbitrary-length PCM byte chunks in, frames of one
//! exact size out. Bytes that do not yet fill a frame stay buffered; no
//! byte is dropped and no short frame is ever emitted. The real-time
//! publish transport requires exactly 10 ms of interleaved samples per
//! frame, which at a given rate and channel count is a fixed byte size.

use vstd::prelude::*;
use vstd::arithmetic::div_mod::{lemma_fundamental_div_mod, lemma_mod_bound};

verus! {

/// The byte size of one 10 ms frame: `rate / 100` samples per channel,
/// `channels` channels, two bytes per sample.
pub open spec fn spec_frame_bytes(sample_rate: int, channels: int) -> int {
    (sample_rate / 100) * channels * 2
}

/// Compute the frame size for a sample rate and channel count.
pub fn frame_bytes(sample_rate: usize, channels: usize) -> (r: usize)
    requires
        spec_frame_bytes(sample_rate as int, channels as int) <= usize::MAX,
        channels * 2 <= usize::MAX,
    ensures
        r == spec_frame_bytes(sample_rate as int, channels as int),
{
    proof {
        assert((sample_rate as int / 100) * channels * 2 >= 0) by (nonlinear_arith)
            requires
                sample_rate >= 0,
                channels >= 0,
        ;
    }
    (sample_rate / 100) * channels * 2
}

/// Accumulates PCM bytes and cuts them into frames of exactly
/// `frame_size` bytes.
pub struct FrameAssembler {
    pub frame_size: usize,
    pub buffer: Vec<u8>,
}

impl FrameAssembler {
    /// The buffer never holds a whole frame between calls.
    pub open spec fn wf(&self) -> bool {
        self.frame_size > 0 && self.buffer@.len() < self.frame_size
    }

    pub fn new(frame_size: usize) -> (r: FrameAssembler)
        requires
            frame_size > 0,
        ensures
            r.wf(),
            r.frame_size == frame_size,
            r.buffer@.len() == 0,
    {
        FrameAssembler { frame_size, buffer: Vec::new() }
    }

    /// Feed one chunk. Every full frame now available is emitted, in
    /// order, each exactly `frame_size` bytes; the remainder stays
    /// buffered. The emitted frames and the new buffer together are
    /// exactly the old buffer followed by the chunk: no byte is lost,
    /// duplicated or reordered.
    pub fn push_chunk(&mut self, chunk: &Vec<u8>) -> (r: Vec<Vec<u8>>)
        requires
            old(self).wf(),
            old(self).buffer@.len() + chunk@.len() <= usize::MAX,
        ensures
            final(self).wf(),
            final(self).frame_size == old(self).frame_size,
            ({
                let total = old(self).buffer@ + chunk@;
                let fs = old(self).frame_size as int;
                let n = total.len() as int / fs;
                &&& r@.len() == n
                &&& forall|i: int|
                    0 <= i < n ==> (#[trigger] r@[i])@ == total.subrange(i * fs, (i + 1) * fs)
                &&& forall|i: int| 0 <= i < n ==> (#[trigger] r@[i])@.len() == fs
                &&& final(self).buffer@ == total.subrange(n * fs, total.len() as int)
            }),
    {
        let ghost total = old(self).buffer@ + chunk@;
        let fs = self.frame_size;
        let mut data = Vec::new();
        core::mem::swap(&mut data, &mut self.buffer);
        let mut i: usize = 0;
        while i < chunk.len()
            invariant
                i <= chunk@.len(),
                total == old(self).buffer@ + chunk@,
                old(self).buffer@.len() + chunk@.len() <= usize::MAX,
                data@ == total.subrange(0, old(self).buffer@.len() + i),
            decreases chunk@.len() - i,
        {
            data.push(chunk[i]);
            proof {
                assert(data@ =~= total.subrange(0, old(self).buffer@.len() + i + 1));
            }
            i = i + 1;
        }
        proof {
            assert(data@ =~= total);
        }
        let n_frames = data.len() / fs;
        let ghost n = n_frames as int;
        proof {
            lemma_fundamental_div_mod(total.len() as int, fs as int);
            lemma_mod_bound(total.len() as int, fs as int);
            assert(total.len() as int == (fs as int) * n + total.len() as int % (fs as int));
            assert(n * (fs as int) <= total.len()) by (nonlinear_arith)
                requires
                    total.len() as int == (fs as int) * n + total.len() as int % (fs as int),
                    0 <= total.len() as int % (fs as int),
            ;
        }
        let mut out: Vec<Vec<u8>> = Vec::new();
        let mut f: usize = 0;
        while f < n_frames
            invariant
                f <= n_frames,
                fs > 0,
                n == n_frames as int,
                n * (fs as int) <= total.len(),
                total.len() <= usize::MAX,
                n_frames as int == data@.len() as int / (fs as int),
                data@ == total,
                out@.len() == f,
                forall|i: int|
                    0 <= i < f ==> (#[trigger] out@[i])@ == total.subrange(
                        i * fs as int,
                        (i + 1) * fs as int,
                    ),
                forall|i: int| 0 <= i < f ==> (#[trigger] out@[i])@.len() == fs,
            decreases n_frames - f,
        {
            proof {
                assert((f as int) * (fs as int) + (fs as int) <= n * (fs as int)) by (nonlinear_arith)
                    requires
                        0 <= (f as int) && (f as int) < n,
                        fs > 0,
                ;
                assert((f as int) * (fs as int) >= 0) by (nonlinear_arith)
                    requires
                        0 <= (f as int),
                        fs > 0,
                ;
            }
            let start = f * fs;
            let mut frame: Vec<u8> = Vec::new();
            let mut b: usize = 0;
            while b < fs
                invariant
                    b <= fs,
                    start == f * fs,
                    start + fs <= data@.len(),
                    data@.len() <= usize::MAX,
                    data@ == total,
                    frame@ == total.subrange(start as int, start as int + b),
                decreases fs - b,
            {
                frame.push(data[start + b]);
                proof {
                    assert(frame@ =~= total.subrange(start as int, start as int + b + 1));
                }
                b = b + 1;
            }
            let ghost opre = out@;
            out.push(frame);
            proof {
                assert(out@ == opre.push(out@[f as int]));
                assert(((f as int) + 1) * (fs as int) == (f as int) * (fs as int) + (fs as int))
                    by (nonlinear_arith);
                assert((out@[f as int])@ == total.subrange(
                    (f as int) * (fs as int),
                    ((f as int) + 1) * (fs as int),
                ));
            }
            f = f + 1;
        }
        let mut rest: Vec<u8> = Vec::new();
        let tail_start = n_frames * fs;
        let mut b: usize = tail_start;
        proof {
            assert(rest@ =~= total.subrange(tail_start as int, tail_start as int));
        }
        while b < data.len()
            invariant
                tail_start <= b <= data@.len(),
                tail_start == n * fs as int,
                data@ == total,
                rest@ == total.subrange(tail_start as int, b as int),
            decreases data@.len() - b,
        {
            rest.push(data[b]);
            proof {
                assert(rest@ =~= total.subrange(tail_start as int, b as int + 1));
            }
            b = b + 1;
        }
        self.buffer = rest;
        proof {
            lemma_fundamental_div_mod(total.len() as int, fs as int);
            lemma_mod_bound(total.len() as int, fs as int);
            assert(total.len() as int - n * (fs as int) < (fs as int)) by (nonlinear_arith)
                requires
                    total.len() as int == (fs as int) * n + total.len() as int % (fs as int),
                    0 <= total.len() as int % (fs as int) < (fs as int),
            ;
        }
        out
    }
}

/// The total byte length of a sequence of chunks.
pub open spec fn sum_len(chunks: Seq<Seq<u8>>) -> int
    decreases chunks.len(),
{
    if chunks.len() == 0 {
        0
    } else {
        sum_len(chunks.drop_first()) + chunks[0].len()
    }
}

/// Feeding chunks in turn: how many frames come out and what stays
/// buffered, starting from a buffer.
pub open spec fn spec_feed(fs: int, buf: Seq<u8>, chunks: Seq<Seq<u8>>) -> (int, Seq<u8>)
    decreases chunks.len(),
{
    if chunks.len() == 0 || fs <= 0 {
        (0, buf)
    } else {
        let total = buf + chunks[0];
        let n = total.len() as int / fs;
        let rest = spec_feed(fs, total.subrange(n * fs, total.len() as int), chunks.drop_first());
        (n + rest.0, rest.1)
    }
}

/// Frame exactness: feeding any chunks, cut any way, emits exactly
/// `total bytes / frame size` frames and retains exactly the remainder —
/// nothing is dropped and nothing short is emitted.
pub proof fn lemma_frame_exactness(fs: int, buf: Seq<u8>, chunks: Seq<Seq<u8>>)
    requires
        fs > 0,
        buf.len() < fs,
    ensures
        spec_feed(fs, buf, chunks).0 == (buf.len() + sum_len(chunks)) / fs,
        spec_feed(fs, buf, chunks).1.len() == (buf.len() + sum_len(chunks)) % fs,
        spec_feed(fs, buf, chunks).1.len() < fs,
    decreases chunks.len(),
{
    if chunks.len() == 0 {
        lemma_fundamental_div_mod(buf.len() as int, fs);
        lemma_mod_bound(buf.len() as int, fs);
        assert(buf.len() as int / fs == 0 && buf.len() as int % fs == buf.len()) by (nonlinear_arith)
            requires
                fs > 0,
                0 <= buf.len() < fs,
                buf.len() as int == fs * (buf.len() as int / fs) + buf.len() as int % fs,
                0 <= buf.len() as int % fs < fs,
        ;
    } else {
        let total = buf + chunks[0];
        let n = total.len() as int / fs;
        lemma_fundamental_div_mod(total.len() as int, fs);
        lemma_mod_bound(total.len() as int, fs);
        assert(0 <= n * fs <= total.len() && total.len() - n * fs < fs) by (nonlinear_arith)
            requires
                fs > 0,
                total.len() as int == fs * n + total.len() as int % fs,
                0 <= total.len() as int % fs < fs,
        ;
        let rem = total.subrange(n * fs, total.len() as int);
        lemma_frame_exactness(fs, rem, chunks.drop_first());
        let s2 = sum_len(chunks.drop_first());
        assert(sum_len(chunks.drop_first()) >= 0) by {
            lemma_sum_len_nonneg(chunks.drop_first());
        }
        let whole = buf.len() + sum_len(chunks);
        lemma_fundamental_div_mod(rem.len() + s2, fs);
        lemma_mod_bound(rem.len() + s2, fs);
        lemma_fundamental_div_mod(whole, fs);
        lemma_mod_bound(whole, fs);
        assert(n + (rem.len() + s2) / fs == whole / fs && (rem.len() + s2) % fs == whole
            % fs) by (nonlinear_arith)
            requires
                fs > 0,
                s2 >= 0,
                total.len() == buf.len() + chunks[0].len(),
                sum_len(chunks) == s2 + chunks[0].len(),
                whole == buf.len() + sum_len(chunks),
                rem.len() == total.len() - n * fs,
                0 <= rem.len() < fs,
                rem.len() + s2 == fs * ((rem.len() + s2) / fs) + (rem.len() + s2) % fs,
                0 <= (rem.len() + s2) % fs < fs,
                whole == fs * (whole / fs) + whole % fs,
                0 <= whole % fs < fs,
        ;
    }
}

proof fn lemma_sum_len_nonneg(chunks: Seq<Seq<u8>>)
    ensures
        sum_len(chunks) >= 0,
    decreases chunks.len(),
{
    if chunks.len() > 0 {
        lemma_sum_len_nonneg(chunks.drop_first());
    }
}

} // verus!
