use vstd::prelude::*;
use vstd::utf8::*;

use crate::text::{escape_text, lemma_escape_encode};

verus! {

/// The replacement of one input byte: an HTML entity for the five reserved
/// characters, the byte itself otherwise.
pub open spec fn entity_bytes(b: u8) -> Seq<u8> {
    if b == 0x26 {
        seq![0x26u8, 0x61, 0x6d, 0x70, 0x3b]
    } else if b == 0x3c {
        seq![0x26u8, 0x6c, 0x74, 0x3b]
    } else if b == 0x3e {
        seq![0x26u8, 0x67, 0x74, 0x3b]
    } else if b == 0x22 {
        seq![0x26u8, 0x71, 0x75, 0x6f, 0x74, 0x3b]
    } else if b == 0x27 {
        seq![0x26u8, 0x23, 0x33, 0x39, 0x3b]
    } else {
        seq![b]
    }
}

/// The escaped form of a byte string: each byte replaced by its entity.
pub open spec fn escape_bytes(s: Seq<u8>) -> Seq<u8>
    decreases s.len(),
{
    if s.len() == 0 {
        seq![]
    } else {
        entity_bytes(s[0]) + escape_bytes(s.drop_first())
    }
}

} // verus!

verus! {

/// A source of bytes, read one at a time. Its contents are modelled as the
/// sequence of bytes that it has still to hand out.
pub trait ByteSource {
    type Error;

    spec fn remaining(&self) -> Seq<u8>;

    /// Whether reading from this source cannot fail (memory, not a device).
    spec fn never_fails(&self) -> bool;

    /// The cause of the latest failed read, if any read failed.
    spec fn last_failure(&self) -> Option<Self::Error>;

    /// Hands out the next byte, or `None` at the end; a failure consumes nothing.
    fn read_byte(&mut self) -> (r: Result<Option<u8>, Self::Error>)
        ensures
            final(self).never_fails() == old(self).never_fails(),
            old(self).never_fails() ==> r is Ok,
            match r {
                Ok(Some(b)) => {
                    &&& old(self).remaining().len() > 0
                    &&& b == old(self).remaining()[0]
                    &&& final(self).remaining() == old(self).remaining().drop_first()
                },
                Ok(None) => {
                    &&& old(self).remaining().len() == 0
                    &&& final(self).remaining() == old(self).remaining()
                },
                Err(e) => {
                    &&& final(self).remaining() == old(self).remaining()
                    &&& final(self).last_failure() == Some(e)
                },
            },
            r is Ok ==> final(self).last_failure() == old(self).last_failure(),
    ;
}

/// The failure of an in-memory source, which never occurs.
#[derive(Debug, Clone, Copy, PartialEq, Eq)]
pub struct NoReadError;

/// A byte source over a slice held in memory.
pub struct SliceSource<'a> {
    data: &'a [u8],
    pos: usize,
}

impl<'a> SliceSource<'a> {
    pub fn new(data: &'a [u8]) -> (r: SliceSource<'a>)
        ensures
            r.remaining() == data@,
    {
        SliceSource { data, pos: 0 }
    }
}

impl<'a> ByteSource for SliceSource<'a> {
    type Error = NoReadError;

    closed spec fn remaining(&self) -> Seq<u8> {
        if self.pos <= self.data@.len() {
            self.data@.subrange(self.pos as int, self.data@.len() as int)
        } else {
            seq![]
        }
    }

    open spec fn never_fails(&self) -> bool {
        true
    }

    open spec fn last_failure(&self) -> Option<NoReadError> {
        None
    }

    fn read_byte(&mut self) -> (r: Result<Option<u8>, NoReadError>) {
        if self.pos < self.data.len() {
            let b = self.data[self.pos];
            self.pos = self.pos + 1;
            assert(self.remaining() =~= old(self).remaining().drop_first());
            Ok(Some(b))
        } else {
            Ok(None)
        }
    }
}

} // verus!

verus! {

/// The longest replacement in the entity table (`&quot;`).
pub const MAX_ENTITY_LEN: usize = 6;

/// The replacement of `b`, as the first `n` bytes of the returned array.
fn entity(b: u8) -> (r: ([u8; 6], usize))
    ensures
        r.1 <= 6,
        r.0@.subrange(0, r.1 as int) == entity_bytes(b),
{
    let r: ([u8; 6], usize) = if b == 0x26 {
        ([0x26, 0x61, 0x6d, 0x70, 0x3b, 0], 5)
    } else if b == 0x3c {
        ([0x26, 0x6c, 0x74, 0x3b, 0, 0], 4)
    } else if b == 0x3e {
        ([0x26, 0x67, 0x74, 0x3b, 0, 0], 4)
    } else if b == 0x22 {
        ([0x26, 0x71, 0x75, 0x6f, 0x74, 0x3b], 6)
    } else if b == 0x27 {
        ([0x26, 0x23, 0x33, 0x39, 0x3b, 0], 5)
    } else {
        ([b, 0, 0, 0, 0, 0], 1)
    };
    assert(r.0@.subrange(0, r.1 as int) =~= entity_bytes(b));
    r
}

/// A stream that reads bytes from an inner source and hands them out
/// HTML-escaped, through output buffers of any size.
///
/// When the replacement of a byte does not fit in the caller's buffer, the
/// part that did not fit waits in a small buffer of its own and is handed
/// out first on the next read.
pub struct Escaper<T> {
    inner: T,
    buffer: [u8; 6],
    start: usize,
    end: usize,
}

impl<T: ByteSource> Escaper<T> {
    /// The pending bytes sit in `buffer[start..end]`; when there are any,
    /// they are what is left of one entity after at least its first byte.
    pub closed spec fn wf(&self) -> bool {
        &&& self.start <= self.end <= MAX_ENTITY_LEN
        &&& self.start < self.end ==> exists|b: u8, k: int|
            1 <= k <= entity_bytes(b).len() && #[trigger] entity_bytes(b).subrange(k, entity_bytes(b).len() as int)
                == self.pending()
    }

    /// The tail of an entity that a previous read could not hand out.
    pub closed spec fn pending(&self) -> Seq<u8> {
        self.buffer@.subrange(self.start as int, self.end as int)
    }

    /// Everything that this stream has still to hand out.
    pub open spec fn output(&self) -> Seq<u8> {
        self.pending() + escape_bytes(self.source().remaining())
    }

    /// The inner source, as it stands.
    pub closed spec fn source(&self) -> T {
        self.inner
    }

    pub fn new(inner: T) -> (r: Escaper<T>)
        ensures
            r.wf(),
            r.pending().len() == 0,
            r.source() == inner,
            r.output() == escape_bytes(inner.remaining()),
    {
        let r = Escaper { inner, buffer: [0; 6], start: 0, end: 0 };
        assert(r.pending() =~= Seq::<u8>::empty());
        assert(r.output() =~= escape_bytes(r.inner.remaining()));
        r
    }

    /// Writes what fits of the replacement of `b` into `buf` from `index`
    /// on, and keeps the rest as pending. Returns how many bytes it wrote.
    fn try_read(&mut self, b: u8, index: usize, buf: &mut [u8]) -> (wrote: usize)
        requires
            old(self).wf(),
            old(self).pending().len() == 0,
            index < old(buf)@.len(),
        ensures
            final(self).wf(),
            final(self).source() == old(self).source(),
            1 <= wrote,
            index + wrote <= old(buf)@.len(),
            final(buf)@.len() == old(buf)@.len(),
            final(buf)@.subrange(index as int, index + wrote) + final(self).pending()
                == entity_bytes(b),
            forall|j: int|
                0 <= j < old(buf)@.len() && !(index <= j < index + wrote) ==> final(buf)@[j]
                    == old(buf)@[j],
            index + wrote < old(buf)@.len() ==> final(self).pending().len() == 0,
    {
        let (ent, n) = entity(b);
        let len = buf.len();
        let ghost buf0 = buf@;
        let mut k: usize = 0;
        while k < n && k < len - index
            invariant
                k <= n <= MAX_ENTITY_LEN,
                index < len,
                index + k <= len,
                len == buf@.len(),
                buf0.len() == len,
                ent@.subrange(0, n as int) == entity_bytes(b),
                forall|j: int| 0 <= j < k ==> buf@[index + j] == ent@[j],
                forall|j: int| 0 <= j < len && !(index <= j < index + k) ==> buf@[j] == buf0[j],
            decreases n - k,
        {
            buf[index + k] = ent[k];
            k = k + 1;
        }
        assert(entity_bytes(b).len() == n);
        if k < n {
            self.buffer = ent;
            self.start = k;
            self.end = n;
            assert(entity_bytes(b).subrange(k as int, n as int) =~= self.pending());
        }
        assert(buf@.subrange(index as int, index + k) + self.pending() =~= entity_bytes(b));
        k
    }

    /// Fills `buf` from the front with the next bytes of the escaped stream
    /// and returns how many it wrote. It stops short of the end of `buf`
    /// only at the end of the stream, and returns 0 only for an empty `buf`
    /// or at the end of the stream. A failure of the source comes back
    /// unchanged; the bytes written before it are then the next bytes of
    /// the stream.
    pub fn read(&mut self, buf: &mut [u8]) -> (r: Result<usize, T::Error>)
        requires
            old(self).wf(),
        ensures
            final(self).wf(),
            final(self).source().never_fails() == old(self).source().never_fails(),
            old(self).source().never_fails() ==> r is Ok,
            final(buf)@.len() == old(buf)@.len(),
            old(self).pending().len() >= old(buf)@.len() ==> {
                &&& r is Ok
                &&& final(self).source() == old(self).source()
                &&& final(self).pending() == old(self).pending().skip(old(buf)@.len() as int)
            },
            match r {
                Ok(n) => {
                    &&& n <= old(buf)@.len()
                    &&& final(buf)@.subrange(0, n as int) + final(self).output()
                        == old(self).output()
                    &&& final(buf)@.subrange(n as int, old(buf)@.len() as int)
                        == old(buf)@.subrange(n as int, old(buf)@.len() as int)
                    &&& n < old(buf)@.len() ==> final(self).output().len() == 0
                    &&& (n == 0) == (old(buf)@.len() == 0 || old(self).output().len() == 0)
                },
                Err(e) => {
                    &&& final(self).source().last_failure() == Some(e)
                    &&& exists|k: int|
                        0 <= k <= old(buf)@.len() && #[trigger] final(buf)@.subrange(0, k)
                            + final(self).output() == old(self).output()
                },
            },
    {
        let ghost out0 = self.output();
        let ghost buf0 = buf@;
        let len = buf.len();
        let mut index: usize = 0;
        while self.start < self.end && index < len
            invariant
                self.wf(),
                self.source().never_fails() == old(self).source().never_fails(),
                len == buf@.len(),
                buf@.len() == buf0.len(),
                index <= len,
                buf@.subrange(0, index as int) + self.output() == out0,
                forall|j: int| index <= j < len ==> buf@[j] == buf0[j],
                self.source() == old(self).source(),
                index <= old(self).pending().len(),
                self.pending() == old(self).pending().skip(index as int),
            decreases self.end - self.start,
        {
            let ghost before = buf@;
            let ghost pend = self.pending();
            let ghost (eb, ek) = choose|eb: u8, ek: int|
                1 <= ek <= entity_bytes(eb).len() && #[trigger] entity_bytes(eb).subrange(
                    ek,
                    entity_bytes(eb).len() as int,
                ) == pend;
            let b = self.buffer[self.start];
            buf[index] = b;
            self.start = self.start + 1;
            index = index + 1;
            proof {
                let full = entity_bytes(eb);
                if self.start < self.end {
                    assert(pend.len() == full.len() - ek);
                    assert(self.pending() =~= pend.subrange(1, pend.len() as int));
                    assert(full.subrange(ek + 1, full.len() as int) =~= pend.subrange(
                        1,
                        pend.len() as int,
                    ));
                }
                assert(pend =~= seq![b] + self.pending());
                assert(self.pending() =~= old(self).pending().skip(index as int));
                assert(buf@.subrange(0, index as int) =~= before.subrange(0, index - 1).push(b));
                assert(buf@.subrange(0, index as int) + self.output() =~= before.subrange(
                    0,
                    index - 1,
                ) + (pend + escape_bytes(self.source().remaining())));
            }
        }
        if index == len {
            assert(buf@.subrange(index as int, len as int) =~= buf0.subrange(
                index as int,
                len as int,
            ));
            return Ok(index);
        }
        assert(self.pending().len() == 0);
        loop
            invariant
                self.wf(),
                self.source().never_fails() == old(self).source().never_fails(),
                self.start == self.end,
                out0 == old(self).output(),
                buf0 == old(buf)@,
                len == buf@.len(),
                buf@.len() == buf0.len(),
                index < len,
                old(self).pending().len() < len,
                buf@.subrange(0, index as int) + self.output() == out0,
                forall|j: int| index <= j < len ==> buf@[j] == buf0[j],
            decreases self.source().remaining().len(),
        {
            assert(self.pending() =~= Seq::<u8>::empty());
            let ghost rem = self.source().remaining();
            let res = self.inner.read_byte();
            match res {
                Err(e) => {
                    assert(buf@.subrange(0, index as int) + self.output() == out0);
                    return Err(e);
                },
                Ok(None) => {
                    assert(self.output() =~= Seq::<u8>::empty());
                    assert(buf@.subrange(index as int, len as int) =~= buf0.subrange(
                        index as int,
                        len as int,
                    ));
                    return Ok(index);
                },
                Ok(Some(b)) => {
                    let ghost tail = escape_bytes(self.source().remaining());
                    let ghost before = buf@;
                    assert(escape_bytes(rem) == entity_bytes(b) + tail);
                    let wrote = self.try_read(b, index, buf);
                    proof {
                        let mid = buf@.subrange(index as int, index + wrote);
                        assert(buf@.subrange(0, index as int) =~= before.subrange(0, index as int));
                        assert(buf@.subrange(0, index + wrote) =~= before.subrange(0, index as int)
                            + mid);
                        assert(buf@.subrange(0, index + wrote) + self.output() =~= before.subrange(
                            0,
                            index as int,
                        ) + (mid + self.pending()) + tail);
                    }
                    index = index + wrote;
                    if index == len {
                        assert(buf@.subrange(index as int, len as int) =~= buf0.subrange(
                            index as int,
                            len as int,
                        ));
                        return Ok(index);
                    }
                    assert(self.pending() =~= Seq::<u8>::empty());
                },
            }
        }
    }

    /// Reads the stream to its end, through buffers whose sizes are taken
    /// from `sizes` in turn, over and over. What comes out is the whole
    /// escaped stream, whatever the sizes are.
    pub fn drain(&mut self, sizes: &[usize]) -> (r: Result<Vec<u8>, T::Error>)
        requires
            old(self).wf(),
            sizes@.len() > 0,
            forall|i: int| 0 <= i < sizes@.len() ==> sizes@[i] > 0,
        ensures
            final(self).wf(),
            final(self).source().never_fails() == old(self).source().never_fails(),
            old(self).source().never_fails() ==> r is Ok,
            r matches Ok(v) ==> v@ == old(self).output() && final(self).output().len() == 0,
    {
        let ghost out0 = self.output();
        let mut out: Vec<u8> = Vec::new();
        let mut i: usize = 0;
        loop
            invariant
                self.wf(),
                self.source().never_fails() == old(self).source().never_fails(),
                out0 == old(self).output(),
                out@ + self.output() == out0,
                i < sizes@.len(),
                forall|j: int| 0 <= j < sizes@.len() ==> sizes@[j] > 0,
            decreases self.output().len(),
        {
            let mut chunk: Vec<u8> = vec![0u8; sizes[i]];
            let ghost before = self.output();
            let n = match self.read(chunk.as_mut_slice()) {
                Ok(n) => n,
                Err(e) => {
                    return Err(e);
                },
            };
            if n == 0 {
                assert(self.output() =~= Seq::<u8>::empty());
                assert(out@ + self.output() =~= out@);
                return Ok(out);
            }
            let ghost got = chunk@.subrange(0, n as int);
            let ghost out_before = out@;
            let mut k: usize = 0;
            while k < n
                invariant
                    k <= n <= chunk@.len(),
                    got == chunk@.subrange(0, n as int),
                    out@ == out_before + got.subrange(0, k as int),
                decreases n - k,
            {
                out.push(chunk[k]);
                k = k + 1;
                assert(out@ =~= out_before + got.subrange(0, k as int));
            }
            assert(got.subrange(0, n as int) =~= got);
            assert(out@ + self.output() =~= out_before + (got + self.output()));
            i = if i + 1 < sizes.len() {
                i + 1
            } else {
                0
            };
        }
    }
}

} // verus!

verus! {

/// Relies on String::from_utf8: it accepts exactly the byte strings that are
/// valid UTF-8, and the string it returns holds those bytes.
#[verifier::external_body]
fn string_from_utf8(bytes: Vec<u8>) -> (r: Option<String>)
    ensures
        r is Some <==> valid_utf8(bytes@),
        r matches Some(t) ==> encode_utf8(t@) == bytes@,
{
    String::from_utf8(bytes).ok()
}

/// The buffer size with which `escape` reads the escaped stream.
const CHUNK: usize = 64;

/// Escapes an HTML value: `&`, `<`, `>`, `"` and `'` become entities, every
/// other character stays as it is.
pub fn escape(s: &str) -> (r: Result<String, NoReadError>)
    ensures
        r matches Ok(t) && t@ == escape_text(s@),
{
    let mut e = Escaper::new(SliceSource::new(s.as_bytes()));
    let sizes: Vec<usize> = vec![CHUNK];
    let bytes = match e.drain(sizes.as_slice()) {
        Ok(b) => b,
        Err(err) => {
            return Err(err);
        },
    };
    proof {
        lemma_escape_encode(s@);
        encode_utf8_valid_utf8(escape_text(s@));
    }
    match string_from_utf8(bytes) {
        Some(t) => {
            proof {
                encode_utf8_decode_utf8(t@);
                encode_utf8_decode_utf8(escape_text(s@));
            }
            Ok(t)
        },
        None => Err(NoReadError),
    }
}

} // verus!

verus! {

/// The chunks read so far, one after the other.
pub open spec fn concat_chunks(chunks: Seq<Seq<u8>>) -> Seq<u8>
    decreases chunks.len(),
{
    if chunks.len() == 0 {
        seq![]
    } else {
        concat_chunks(chunks.drop_last()) + chunks.last()
    }
}

/// Reading an escaper through buffers of any sizes is transparent. Where
/// `owed[i]` is what the stream owed (`Escaper::output`) before read `i`,
/// and `chunks[i]` what that read handed out (so that `read` ensures
/// `chunks[i] + owed[i + 1] == owed[i]`), the chunks read so far followed by
/// what is still owed are the whole stream; once nothing is owed, the chunks
/// together are the whole escaped stream, as one read into a large enough
/// buffer gives it.
pub proof fn lemma_chunked_reads(owed: Seq<Seq<u8>>, chunks: Seq<Seq<u8>>)
    requires
        owed.len() == chunks.len() + 1,
        forall|i: int| 0 <= i < chunks.len() ==> #[trigger] chunks[i] + owed[i + 1] == owed[i],
    ensures
        concat_chunks(chunks) + owed.last() == owed[0],
        owed.last().len() == 0 ==> concat_chunks(chunks) == owed[0],
    decreases chunks.len(),
{
    if chunks.len() > 0 {
        let k = chunks.len() - 1;
        lemma_chunked_reads(owed.drop_last(), chunks.drop_last());
        assert(owed.drop_last().last() == owed[k]);
        assert(chunks[k] + owed[k + 1] == owed[k]);
        assert(concat_chunks(chunks) + owed.last() =~= concat_chunks(chunks.drop_last()) + (
        chunks[k] + owed[k + 1]));
    }
    if owed.last().len() == 0 {
        assert(concat_chunks(chunks) + owed.last() =~= concat_chunks(chunks));
    }
}

} // verus!
