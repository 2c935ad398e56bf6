use vstd::prelude::*;

verus! {

/// The complete `k`-byte frames at the front of `s`, in order.
///
/// Framing peels whole records off the front: the first `k` bytes, then the
/// first `k` bytes of what remains, and so on, until fewer than `k` bytes
/// are left.
pub open spec fn frames(s: Seq<u8>, k: nat) -> Seq<Seq<u8>>
    decreases s.len(),
{
    if k == 0 || s.len() < k {
        Seq::empty()
    } else {
        seq![s.take(k as int)] + frames(s.skip(k as int), k)
    }
}

/// The bytes of `s` left over after every complete `k`-byte frame is taken:
/// always shorter than one record.
pub open spec fn frames_rest(s: Seq<u8>, k: nat) -> Seq<u8>
    decreases s.len(),
{
    if k == 0 || s.len() < k {
        s
    } else {
        frames_rest(s.skip(k as int), k)
    }
}

/// The concatenation of a sequence of transport chunks.
pub open spec fn concat_chunks(chunks: Seq<Seq<u8>>) -> Seq<u8>
    decreases chunks.len(),
{
    if chunks.len() == 0 {
        Seq::empty()
    } else {
        chunks.first() + concat_chunks(chunks.drop_first())
    }
}

/// The records a decoder with pending bytes `buf` emits when fed the
/// chunks of `chunks` one after the other.
pub open spec fn fed_frames(buf: Seq<u8>, chunks: Seq<Seq<u8>>, k: nat) -> Seq<Seq<u8>>
    decreases chunks.len(),
{
    if chunks.len() == 0 {
        Seq::empty()
    } else {
        frames(buf + chunks.first(), k) + fed_frames(
            frames_rest(buf + chunks.first(), k),
            chunks.drop_first(),
            k,
        )
    }
}

/// Splitting a stream in two at any point frames the same records: the
/// frames of `a`, then the frames of `a`'s leftover followed by `b`, are
/// exactly the frames of `a + b`, and the leftovers agree.
pub proof fn lemma_frames_split(a: Seq<u8>, b: Seq<u8>, k: nat)
    requires
        k > 0,
    ensures
        frames(a, k) + frames(frames_rest(a, k) + b, k) == frames(a + b, k),
        frames_rest(frames_rest(a, k) + b, k) == frames_rest(a + b, k),
    decreases a.len(),
{
    if a.len() < k {
        assert(frames_rest(a, k) + b =~= a + b);
        assert(frames(a, k) + frames(a + b, k) =~= frames(a + b, k));
    } else {
        lemma_frames_split(a.skip(k as int), b, k);
        assert((a + b).take(k as int) =~= a.take(k as int));
        assert((a + b).skip(k as int) =~= a.skip(k as int) + b);
        assert(frames(a, k) + frames(frames_rest(a, k) + b, k) =~= frames(a + b, k));
    }
}

/// Chunk-boundary independence: delivering a byte stream as any sequence
/// of chunks, split at arbitrary boundaries, frames exactly the records of
/// the whole stream delivered at once, provided the decoder starts with
/// less than one record pending.
pub proof fn lemma_chunking_independent(buf: Seq<u8>, chunks: Seq<Seq<u8>>, k: nat)
    requires
        k > 0,
        buf.len() < k,
    ensures
        fed_frames(buf, chunks, k) == frames(buf + concat_chunks(chunks), k),
    decreases chunks.len(),
{
    if chunks.len() == 0 {
        assert(buf + concat_chunks(chunks) =~= buf);
    } else {
        let head = buf + chunks.first();
        let rest = frames_rest(head, k);
        lemma_frames_rest_short(head, k);
        lemma_chunking_independent(rest, chunks.drop_first(), k);
        lemma_frames_split(head, concat_chunks(chunks.drop_first()), k);
        assert(head + concat_chunks(chunks.drop_first()) =~= buf + concat_chunks(chunks));
    }
}

/// What framing leaves over is always shorter than one record.
pub proof fn lemma_frames_rest_short(s: Seq<u8>, k: nat)
    requires
        k > 0,
    ensures
        frames_rest(s, k).len() < k,
    decreases s.len(),
{
    if s.len() >= k {
        lemma_frames_rest_short(s.skip(k as int), k);
    }
}

/// Re-frames a byte stream into fixed-size records.
///
/// The transport delivers the stream in chunks whose boundaries are
/// unrelated to record boundaries; the decoder buffers the trailing partial
/// record of each chunk and emits every record exactly once, in stream
/// order.
pub struct StreamDecoder {
    record_size: usize,
    buffer: Vec<u8>,
}

impl StreamDecoder {
    /// The fixed record size, in bytes.
    pub closed spec fn size(self) -> nat {
        self.record_size as nat
    }

    /// The bytes received but not yet part of a complete record.
    pub closed spec fn buffered(self) -> Seq<u8> {
        self.buffer@
    }

    /// A decoder is well formed when its record size is positive and it
    /// holds less than one record of pending bytes.
    pub open spec fn wf(self) -> bool {
        self.size() > 0 && self.buffered().len() < self.size()
    }

    /// A fresh decoder for records of `record_size` bytes.
    pub fn new(record_size: usize) -> (d: Self)
        requires
            record_size > 0,
        ensures
            d.wf(),
            d.size() == record_size,
            d.buffered() == Seq::<u8>::empty(),
    {
        StreamDecoder { record_size, buffer: Vec::new() }
    }

    /// Feeds one transport chunk and returns every record completed by it.
    ///
    /// The records returned are exactly the complete frames of the pending
    /// bytes followed by the chunk, and the new pending bytes are what is
    /// left after those frames.
    pub fn feed(&mut self, chunk: &Vec<u8>) -> (out: Vec<Vec<u8>>)
        requires
            old(self).wf(),
        ensures
            final(self).wf(),
            final(self).size() == old(self).size(),
            out@.map_values(|r: Vec<u8>| r@) == frames(
                old(self).buffered() + chunk@,
                old(self).size(),
            ),
            final(self).buffered() == frames_rest(old(self).buffered() + chunk@, old(self).size()),
    {
        let k: usize = self.record_size;
        let mut total: Vec<u8> = Vec::new();
        std::mem::swap(&mut total, &mut self.buffer);
        let mut i: usize = 0;
        while i < chunk.len()
            invariant
                i <= chunk.len(),
                total@ == old(self).buffered() + chunk@.take(i as int),
            decreases chunk.len() - i,
        {
            total.push(chunk[i]);
            i = i + 1;
            assert(old(self).buffered() + chunk@.take(i as int) =~= (old(self).buffered()
                + chunk@.take(i - 1)).push(chunk@[i - 1]));
        }
        assert(total@ =~= old(self).buffered() + chunk@);

        let ghost whole: Seq<u8> = total@;
        let mut out: Vec<Vec<u8>> = Vec::new();
        let mut start: usize = 0;
        assert(whole.skip(0) =~= whole);
        assert(out@.map_values(|r: Vec<u8>| r@) + frames(whole.skip(0), k as nat) =~= frames(
            whole,
            k as nat,
        ));
        while total.len() - start >= k
            invariant
                k == old(self).size(),
                k > 0,
                start <= total.len(),
                total@ == whole,
                out@.map_values(|r: Vec<u8>| r@) + frames(whole.skip(start as int), k as nat)
                    =~= frames(whole, k as nat),
                frames_rest(whole.skip(start as int), k as nat) == frames_rest(whole, k as nat),
            decreases total.len() - start,
        {
            let mut rec: Vec<u8> = Vec::new();
            let mut j: usize = start;
            while j < start + k
                invariant
                    start <= j <= start + k,
                    start + k <= total.len(),
                    total@ == whole,
                    rec@ == whole.subrange(start as int, j as int),
                decreases start + k - j,
            {
                rec.push(total[j]);
                j = j + 1;
                assert(whole.subrange(start as int, j as int) =~= whole.subrange(
                    start as int,
                    j - 1,
                ).push(whole[j - 1]));
            }
            let ghost tail: Seq<u8> = whole.skip(start as int);
            assert(rec@ =~= tail.take(k as int));
            assert(whole.skip(start + k) =~= tail.skip(k as int));
            let ghost old_out: Seq<Vec<u8>> = out@;
            out.push(rec);
            start = start + k;
            assert(out@.map_values(|r: Vec<u8>| r@) =~= old_out.map_values(|r: Vec<u8>| r@)
                + seq![rec@]);
            assert(out@.map_values(|r: Vec<u8>| r@) + frames(whole.skip(start as int), k as nat)
                =~= frames(whole, k as nat));
        }

        let mut rest: Vec<u8> = Vec::new();
        let mut j: usize = start;
        while j < total.len()
            invariant
                start <= j <= total.len(),
                total@ == whole,
                rest@ == whole.subrange(start as int, j as int),
            decreases total.len() - j,
        {
            rest.push(total[j]);
            j = j + 1;
            assert(whole.subrange(start as int, j as int) =~= whole.subrange(start as int, j - 1)
                .push(whole[j - 1]));
        }
        assert(rest@ =~= whole.skip(start as int));
        assert(frames(whole.skip(start as int), k as nat) =~= Seq::<Seq<u8>>::empty());
        assert(out@.map_values(|r: Vec<u8>| r@) =~= frames(whole, k as nat));
        assert(frames_rest(whole.skip(start as int), k as nat) == whole.skip(start as int));
        self.buffer = rest;
        out
    }
}

} // verus!
