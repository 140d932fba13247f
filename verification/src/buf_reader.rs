//! A buffering layer that lets a reader roll back what it has read since the
//! last point it declared safe.

use vstd::prelude::*;

verus! {

/// Buffering wrapper for async operation
///
/// It keeps the bytes that were read from the wrapped reader since the last
/// `advance()`, so that a failed read can be rolled back and the reading
/// position moved back by `seek_back`.
pub struct BufReader<T> {
    rdr: T,
    buf: Vec<u8>,
    read_offs: usize,
}

/// The model of a `BufReader`.
pub struct BufReaderView<T> {
    pub rdr: T,
    /// The bytes read from the wrapped reader since the last `advance()`.
    pub buf: Seq<u8>,
    /// How many of them have been handed out.
    pub read_offs: int,
}

impl<T> View for BufReader<T> {
    type V = BufReaderView<T>;

    closed spec fn view(&self) -> BufReaderView<T> {
        BufReaderView { rdr: self.rdr, buf: self.buf@, read_offs: self.read_offs as int }
    }
}

/// What a `BufReader` satisfies between calls.
pub open spec fn buf_reader_wf<T>(v: BufReaderView<T>) -> bool {
    0 <= v.read_offs <= v.buf.len()
}

/// The number of bytes that `take_buffered(max)` hands out in state `v`.
pub open spec fn take_len<T>(v: BufReaderView<T>, max: int) -> int {
    let avail = v.buf.len() - v.read_offs;
    if avail < max {
        avail
    } else {
        max
    }
}

/// The bytes that `take_buffered(max)` hands out in state `v`.
pub open spec fn taken<T>(v: BufReaderView<T>, max: int) -> Seq<u8> {
    v.buf.subrange(v.read_offs, v.read_offs + take_len(v, max))
}

/// The state after `take_buffered(max)` in state `v`.
pub open spec fn after_take<T>(v: BufReaderView<T>, max: int) -> BufReaderView<T> {
    BufReaderView { read_offs: v.read_offs + take_len(v, max), ..v }
}

/// The state after a read of the wrapped reader gave `data` in state `v`.
pub open spec fn after_record<T>(v: BufReaderView<T>, data: Seq<u8>) -> BufReaderView<T> {
    BufReaderView { buf: v.buf + data, read_offs: v.read_offs + data.len(), ..v }
}

/// The state after a read of the wrapped reader failed in state `v`.
pub open spec fn rewound<T>(v: BufReaderView<T>) -> BufReaderView<T> {
    BufReaderView { read_offs: 0, ..v }
}

/// The state after `advance()` in state `v`.
pub open spec fn advanced<T>(v: BufReaderView<T>) -> BufReaderView<T> {
    BufReaderView { buf: v.buf.skip(v.read_offs), read_offs: 0, ..v }
}

/// The state after `seek_back(len)` in state `v`.
pub open spec fn seeked_back<T>(v: BufReaderView<T>, len: int) -> BufReaderView<T> {
    BufReaderView { read_offs: v.read_offs - len, ..v }
}

/// Seeking back by `len` bytes makes the next read hand out again the last
/// `len` bytes that were handed out.
pub proof fn lemma_seek_back_rereads<T>(v: BufReaderView<T>, len: int)
    requires
        buf_reader_wf(v),
        0 <= len <= v.read_offs,
    ensures
        buf_reader_wf(seeked_back(v, len)),
        taken(seeked_back(v, len), len) == v.buf.subrange(v.read_offs - len, v.read_offs),
{
}

/// Neither handing out buffered bytes nor reading from the wrapped reader
/// changes the bytes that are already buffered: the buffer only grows.
pub proof fn lemma_reads_keep_buffer<T>(v: BufReaderView<T>, max: int, data: Seq<u8>)
    requires
        buf_reader_wf(v),
        0 <= max,
    ensures
        v.buf.is_prefix_of(after_take(v, max).buf),
        v.buf.is_prefix_of(after_record(v, data).buf),
{
    assert(v.buf.is_prefix_of(v.buf + data)) by {
        assert((v.buf + data).take(v.buf.len() as int) =~= v.buf);
    }
    assert(v.buf.is_prefix_of(v.buf)) by {
        assert(v.buf.take(v.buf.len() as int) =~= v.buf);
    }
}

/// After a read failed, the reader hands out again what it would have handed
/// out right after the last `advance()`: `a` is the state then, `b` the state
/// when the read failed, reached by reads that only made the buffer grow.
pub proof fn lemma_read_error_rewinds<T>(a: BufReaderView<T>, b: BufReaderView<T>, max: int)
    requires
        a.read_offs == 0,
        a.buf.is_prefix_of(b.buf),
        0 <= max <= a.buf.len(),
    ensures
        taken(rewound(b), max) == taken(a, max),
{
    assert(taken(rewound(b), max) =~= taken(a, max)) by {
        assert forall|i: int| 0 <= i < max implies b.buf[i] == a.buf[i] by {
            assert(b.buf.take(a.buf.len() as int)[i] == b.buf[i]);
        }
    }
}

impl<T> BufReader<T> {
    /// Wraps `rdr`, with nothing buffered.
    pub fn new(rdr: T) -> (res: Self)
        ensures
            buf_reader_wf(res@),
            res@.rdr == rdr,
            res@.buf == Seq::<u8>::empty(),
            res@.read_offs == 0,
    {
        return BufReader { rdr: rdr, buf: Vec::new(), read_offs: 0 };
    }

    /// Returns the wrapped reader.
    pub fn into_inner(self) -> (res: T)
        ensures
            res == self@.rdr,
    {
        self.rdr
    }

    /// Gives access to the wrapped reader, to read from it.
    pub fn inner_mut(&mut self) -> (res: &mut T)
        ensures
            *res == old(self)@.rdr,
            final(self)@ == (BufReaderView { rdr: *final(res), ..old(self)@ }),
    {
        &mut self.rdr
    }

    /// The number of read bytes that are buffered and not yet handed out.
    pub fn buffered(&self) -> (res: usize)
        requires
            buf_reader_wf(self@),
        ensures
            res == self@.buf.len() - self@.read_offs,
    {
        self.buf.len() - self.read_offs
    }

    /// How many of the buffered bytes have been handed out.
    pub fn read_offset(&self) -> (res: usize)
        ensures
            res == self@.read_offs,
    {
        self.read_offs
    }

    /// Whether nothing is buffered: the state in which the wrapped reader may seek.
    pub fn is_clean(&self) -> (res: bool)
        ensures
            res == (self@.read_offs == 0 && self@.buf.len() == 0),
    {
        self.read_offs == 0 && self.buf.len() == 0
    }

    /// Hands out up to `max` buffered bytes.
    pub fn take_buffered(&mut self, max: usize) -> (res: Vec<u8>)
        requires
            buf_reader_wf(old(self)@),
        ensures
            buf_reader_wf(final(self)@),
            res@ == taken(old(self)@, max as int),
            final(self)@ == after_take(old(self)@, max as int),
    {
        let avail = self.buf.len() - self.read_offs;
        let ml = if avail < max {
            avail
        } else {
            max
        };
        let out = vstd::slice::slice_to_vec(
            vstd::slice::slice_subrange(self.buf.as_slice(), self.read_offs, ml + self.read_offs),
        );
        self.read_offs = self.read_offs + ml;
        out
    }

    /// Takes note of the bytes `data` that a read from the wrapped reader gave,
    /// and that are handed out at once.
    pub fn record_read(&mut self, data: &[u8])
        requires
            buf_reader_wf(old(self)@),
            old(self)@.read_offs + data@.len() <= usize::MAX,
        ensures
            buf_reader_wf(final(self)@),
            final(self)@ == after_record(old(self)@, data@),
    {
        let mut more = vstd::slice::slice_to_vec(data);
        self.buf.append(&mut more);
        self.read_offs = self.read_offs + data.len();
    }

    /// Rolls the reading position back to the last `advance()`, after a read of
    /// the wrapped reader failed.
    pub fn record_read_error(&mut self)
        requires
            buf_reader_wf(old(self)@),
        ensures
            buf_reader_wf(final(self)@),
            final(self)@ == rewound(old(self)@),
    {
        self.read_offs = 0;
    }
}

/// Interface for read failure recovery layers
///
/// From time to time, users of this trait call the `advance()` method, which
/// indicates that the state is safe. Once a read failure happens, the
/// implementor reverts the state to the last time `advance()` was called.
/// `seek_back` moves the reading position back by at most the number of
/// bytes successfully read since then.
pub trait AdvanceAndSeekBack {
    /// The state in which the layer can take an `advance()`.
    spec fn advance_ok(&self) -> bool;

    /// Whether the reading position can move back by `len` bytes.
    spec fn seek_back_ok(&self, len: usize) -> bool;

    fn advance(&mut self)
        requires
            old(self).advance_ok(),
    ;

    fn seek_back(&mut self, len: usize)
        requires
            old(self).seek_back_ok(len),
    ;
}

impl<T> AdvanceAndSeekBack for BufReader<T> {
    open spec fn advance_ok(&self) -> bool {
        buf_reader_wf(self@)
    }

    open spec fn seek_back_ok(&self, len: usize) -> bool {
        len <= self@.read_offs
    }

    /// Drops everything that was handed out.
    fn advance(&mut self)
        ensures
            final(self)@ == advanced(old(self)@),
    {
        self.buf = vstd::slice::slice_to_vec(
            vstd::slice::slice_subrange(self.buf.as_slice(), self.read_offs, self.buf.len()),
        );
        self.read_offs = 0;
    }

    fn seek_back(&mut self, len: usize)
        ensures
            final(self)@ == seeked_back(old(self)@, len as int),
    {
        self.read_offs = self.read_offs - len;
    }
}

} // verus!
