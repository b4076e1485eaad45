//! Bounded-buffer shaping of byte strings.
//!
//! Content travels as a finite sequence of non-empty buffers of at most
//! `CHUNK_SIZE` bytes, both over the wire and when feeding the digest.

use vstd::prelude::*;

verus! {

/// Buffers hold at most one mebibyte.
pub const CHUNK_SIZE: usize = 1048576;

/// A non-restartable cursor that hands out the bytes of a buffer as a
/// sequence of non-empty chunks of at most `CHUNK_SIZE` bytes each.
pub struct ChunkedReader {
    data: Vec<u8>,
    pos: usize,
}

impl ChunkedReader {
    /// The bytes this reader walks over.
    pub closed spec fn data(&self) -> Seq<u8> {
        self.data@
    }

    /// How many bytes have been handed out so far.
    pub closed spec fn pos(&self) -> int {
        self.pos as int
    }

    pub closed spec fn wf(&self) -> bool {
        self.pos <= self.data@.len()
    }

    pub fn new(data: Vec<u8>) -> (r: Self)
        ensures
            r.data() == data@,
            r.pos() == 0,
            r.wf(),
    {
        ChunkedReader { data, pos: 0 }
    }

    /// The next chunk: the following `CHUNK_SIZE` bytes, or what is left,
    /// or nothing at the end.
    pub fn next(&mut self) -> (r: Option<Vec<u8>>)
        requires
            old(self).wf(),
        ensures
            final(self).wf(),
            final(self).data() == old(self).data(),
            old(self).pos() == old(self).data().len() ==> r is None && final(self).pos() == old(
                self,
            ).pos(),
            old(self).pos() < old(self).data().len() ==> (r matches Some(c) && {
                &&& final(self).pos() == vstd::math::min(
                    old(self).pos() + CHUNK_SIZE as int,
                    old(self).data().len() as int,
                )
                &&& c@ == old(self).data().subrange(old(self).pos(), final(self).pos())
                &&& 0 < c@.len() <= CHUNK_SIZE
            }),
    {
        let n = self.data.len();
        if self.pos == n {
            return None;
        }
        let remaining = n - self.pos;
        let take = if remaining < CHUNK_SIZE {
            remaining
        } else {
            CHUNK_SIZE
        };
        let mut chunk: Vec<u8> = Vec::new();
        let end = self.pos + take;
        let mut j = self.pos;
        while j < end
            invariant
                self.pos <= j <= end,
                end <= self.data@.len(),
                chunk@ == self.data@.subrange(self.pos as int, j as int),
            decreases end - j,
        {
            chunk.push(self.data[j]);
            j = j + 1;
            assert(chunk@ =~= self.data@.subrange(self.pos as int, j as int));
        }
        self.pos = end;
        Some(chunk)
    }
}

/// The byte strings of a list of buffers.
pub open spec fn chunk_views(s: Seq<Vec<u8>>) -> Seq<Seq<u8>> {
    s.map_values(|c: Vec<u8>| c@)
}

/// The canonical chunking of a byte string: maximal chunks of
/// `CHUNK_SIZE` bytes, then whatever remains.
pub open spec fn spec_chunks(data: Seq<u8>) -> Seq<Seq<u8>>
    decreases data.len(),
{
    if data.len() == 0 {
        Seq::empty()
    } else if data.len() <= CHUNK_SIZE {
        seq![data]
    } else {
        seq![data.take(CHUNK_SIZE as int)] + spec_chunks(data.skip(CHUNK_SIZE as int))
    }
}

/// Law: the canonical chunking splits its input and nothing else — the
/// chunks concatenate back to the bytes, every chunk is non-empty and at
/// most `CHUNK_SIZE` bytes, and every chunk but the last is full.
pub proof fn lemma_spec_chunks_shape(data: Seq<u8>)
    ensures
        spec_chunks(data).flatten() == data,
        forall|k: int|
            0 <= k < spec_chunks(data).len() ==> 0 < (#[trigger] spec_chunks(data)[k]).len()
                <= CHUNK_SIZE,
        forall|k: int|
            0 <= k < spec_chunks(data).len() - 1 ==> (#[trigger] spec_chunks(data)[k]).len()
                == CHUNK_SIZE,
    decreases data.len(),
{
    if data.len() == 0 {
        assert(spec_chunks(data).flatten() =~= data);
    } else if data.len() <= CHUNK_SIZE {
        assert(spec_chunks(data) =~= seq![data]);
        assert(seq![data].drop_first() =~= Seq::<Seq<u8>>::empty());
        assert(seq![data].flatten() == data + Seq::<Seq<u8>>::empty().flatten());
        assert(spec_chunks(data).flatten() =~= data);
    } else {
        lemma_spec_chunks_shape(data.skip(CHUNK_SIZE as int));
        let head = data.take(CHUNK_SIZE as int);
        let rest = spec_chunks(data.skip(CHUNK_SIZE as int));
        assert(spec_chunks(data) =~= seq![head] + rest);
        assert((seq![head] + rest).drop_first() =~= rest);
        assert((seq![head] + rest).first() == head);
        assert(spec_chunks(data).flatten() == head + rest.flatten());
        assert(head + data.skip(CHUNK_SIZE as int) =~= data);
        assert(spec_chunks(data).flatten() =~= data);
        assert forall|k: int|
            0 <= k < spec_chunks(data).len() implies 0 < (#[trigger] spec_chunks(
            data,
        )[k]).len() <= CHUNK_SIZE by {
            if k > 0 {
                assert(spec_chunks(data)[k] == rest[k - 1]);
            }
        }
        assert forall|k: int|
            0 <= k < spec_chunks(data).len() - 1 implies (#[trigger] spec_chunks(data)[k]).len()
                == CHUNK_SIZE by {
            if k > 0 {
                assert(spec_chunks(data)[k] == rest[k - 1]);
            }
        }
    }
}

/// Shape `data` as exactly its canonical chunking.
pub fn chunk_bytes(data: &Vec<u8>) -> (r: Vec<Vec<u8>>)
    ensures
        chunk_views(r@) == spec_chunks(data@),
{
    let mut reader = ChunkedReader::new(clone_bytes(data));
    let mut out: Vec<Vec<u8>> = Vec::new();
    proof {
        assert(chunk_views(out@) =~= Seq::<Seq<u8>>::empty());
        assert(data@.skip(0) =~= data@);
        assert(Seq::<Seq<u8>>::empty() + spec_chunks(data@) =~= spec_chunks(data@));
    }
    loop
        invariant
            reader.wf(),
            reader.data() == data@,
            0 <= reader.pos() <= data@.len(),
            chunk_views(out@) + spec_chunks(data@.skip(reader.pos())) == spec_chunks(data@),
        decreases data@.len() - reader.pos(),
    {
        let ghost prev_pos = reader.pos();
        let ghost prev = chunk_views(out@);
        match reader.next() {
            Some(chunk) => {
                out.push(chunk);
                proof {
                    let now = chunk_views(out@);
                    let tail = data@.skip(prev_pos);
                    assert(now =~= prev.push(out@.last()@));
                    if tail.len() <= CHUNK_SIZE {
                        assert(reader.pos() == data@.len());
                        assert(out@.last()@ =~= tail);
                        assert(spec_chunks(tail) =~= seq![tail]);
                        assert(data@.skip(reader.pos()).len() == 0);
                        assert(prev.push(tail) + spec_chunks(data@.skip(reader.pos())) =~= prev
                            + spec_chunks(tail));
                    } else {
                        assert(out@.last()@ =~= tail.take(CHUNK_SIZE as int));
                        assert(tail.skip(CHUNK_SIZE as int) =~= data@.skip(reader.pos()));
                        assert(prev.push(tail.take(CHUNK_SIZE as int)) + spec_chunks(
                            tail.skip(CHUNK_SIZE as int),
                        ) =~= prev + (seq![tail.take(CHUNK_SIZE as int)] + spec_chunks(
                            tail.skip(CHUNK_SIZE as int),
                        )));
                    }
                }
            },
            None => {
                proof {
                    assert(data@.skip(reader.pos()).len() == 0);
                    assert(spec_chunks(data@.skip(reader.pos())) =~= Seq::<Seq<u8>>::empty());
                    assert(chunk_views(out@) =~= chunk_views(out@) + Seq::<Seq<u8>>::empty());
                }
                return out;
            },
        }
    }
}

/// A plain copy of a byte buffer.
pub fn clone_bytes(data: &Vec<u8>) -> (r: Vec<u8>)
    ensures
        r@ == data@,
{
    let mut out: Vec<u8> = Vec::new();
    let mut i: usize = 0;
    while i < data.len()
        invariant
            i <= data@.len(),
            out@ == data@.take(i as int),
        decreases data@.len() - i,
    {
        out.push(data[i]);
        i = i + 1;
        assert(out@ =~= data@.take(i as int));
    }
    assert(out@ =~= data@);
    out
}

} // verus!
