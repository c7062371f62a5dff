use vstd::prelude::*;
use vstd::string::StringSliceAdditionalSpecFns;

verus! {

/// Bytes held before the buffer hands them out unasked.
pub const STREAM_OUTPUT_BUFFER_BYTES: usize = 65536usize;

/// Bytes after which the first visible output is handed out early.
pub const STREAM_OUTPUT_FLUSH_BYTES: usize = 8192usize;

/// Collects rendered output and decides when it is to be written out. Each
/// method that would write returns the bytes to write, in order, and
/// forgets them.
pub struct StreamBuffer {
    buf: Vec<u8>,
}

impl View for StreamBuffer {
    type V = Seq<u8>;

    closed spec fn view(&self) -> Seq<u8> {
        self.buf@
    }
}

impl StreamBuffer {
    /// An empty buffer.
    pub fn new() -> (r: Self)
        ensures
            r@ == Seq::<u8>::empty(),
    {
        StreamBuffer { buf: Vec::with_capacity(STREAM_OUTPUT_BUFFER_BYTES) }
    }

    /// Number of buffered bytes.
    pub fn len(&self) -> (r: usize)
        ensures
            r == self@.len(),
    {
        self.buf.len()
    }

    /// Hands out everything buffered when there is anything.
    pub fn flush(&mut self) -> (written: Option<Vec<u8>>)
        ensures
            old(self)@.len() > 0 ==> (written matches Some(w) && w@ == old(self)@ && final(self)@
                == Seq::<u8>::empty()),
            old(self)@.len() == 0 ==> written is None && final(self)@ == old(self)@,
    {
        if self.buf.len() > 0 {
            let mut taken: Vec<u8> = Vec::new();
            std::mem::swap(&mut taken, &mut self.buf);
            Some(taken)
        } else {
            None
        }
    }

    /// Hands out everything buffered once it holds at least `bytes` bytes.
    pub fn flush_if_at_least(&mut self, bytes: usize) -> (written: Option<Vec<u8>>)
        ensures
            old(self)@.len() >= bytes && old(self)@.len() > 0 ==> (written matches Some(w) && w@
                == old(self)@ && final(self)@ == Seq::<u8>::empty()),
            !(old(self)@.len() >= bytes && old(self)@.len() > 0) ==> written is None && final(self)@ == old(self)@,
    {
        if self.buf.len() >= bytes {
            self.flush()
        } else {
            None
        }
    }

    /// Hands out everything buffered once the buffer is full.
    pub fn flush_if_full(&mut self) -> (written: Option<Vec<u8>>)
        ensures
            old(self)@.len() >= STREAM_OUTPUT_BUFFER_BYTES ==> (written matches Some(w) && w@
                == old(self)@ && final(self)@ == Seq::<u8>::empty()),
            old(self)@.len() < STREAM_OUTPUT_BUFFER_BYTES ==> written is None && final(self)@ == old(self)@,
    {
        self.flush_if_at_least(STREAM_OUTPUT_BUFFER_BYTES)
    }

    /// Adds the UTF-8 bytes of `s`, handing out the whole buffer when it is
    /// then full.
    pub fn push(&mut self, s: &str) -> (written: Option<Vec<u8>>)
        ensures
            ({
                let all = old(self)@ + s.spec_bytes();
                &&& all.len() >= STREAM_OUTPUT_BUFFER_BYTES ==> (written matches Some(w) && w@
                    == all && final(self)@ == Seq::<u8>::empty())
                &&& all.len() < STREAM_OUTPUT_BUFFER_BYTES ==> written is None && final(self)@
                    == all
            }),
    {
        let bytes = s.as_bytes();
        let mut i: usize = 0;
        while i < bytes.len()
            invariant
                i <= bytes@.len(),
                self@ == old(self)@ + bytes@.take(i as int),
            decreases bytes@.len() - i,
        {
            self.buf.push(bytes[i]);
            assert(bytes@.take(i + 1) =~= bytes@.take(i as int).push(bytes@[i as int]));
            i = i + 1;
        }
        assert(bytes@.take(bytes@.len() as int) =~= bytes@);
        self.flush_if_full()
    }
}

} // verus!

verus! {

/// Bytes handed out and bytes still buffered after pushing `pieces`, in
/// order, into an empty buffer.
pub open spec fn after_pushes(pieces: Seq<Seq<u8>>) -> (Seq<u8>, Seq<u8>)
    decreases pieces.len(),
{
    if pieces.len() == 0 {
        (seq![], seq![])
    } else {
        let (written, held) = after_pushes(pieces.drop_last());
        let all = held + pieces.last();
        if all.len() >= STREAM_OUTPUT_BUFFER_BYTES {
            (written + all, seq![])
        } else {
            (written, all)
        }
    }
}

/// Pushing loses, duplicates and reorders nothing: what was handed out,
/// followed by what is still buffered, is everything pushed; and the
/// buffer never keeps a full buffer's worth of bytes.
pub proof fn law_stream_keeps_every_byte(pieces: Seq<Seq<u8>>)
    ensures
        after_pushes(pieces).0 + after_pushes(pieces).1 == crate::text::concat_all(pieces),
        after_pushes(pieces).1.len() < STREAM_OUTPUT_BUFFER_BYTES,
    decreases pieces.len(),
{
    if pieces.len() > 0 {
        law_stream_keeps_every_byte(pieces.drop_last());
        let (written, held) = after_pushes(pieces.drop_last());
        assert(written + (held + pieces.last()) =~= (written + held) + pieces.last());
        assert(written + held + pieces.last() + Seq::<u8>::empty() =~= written + held
            + pieces.last());
    }
}

} // verus!
