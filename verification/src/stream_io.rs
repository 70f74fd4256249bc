//! In-memory seekable byte streams and the length-limited reader that a WARC
//! record reads its block through.
use vstd::prelude::*;

verus! {

/// Failure of a stream operation or of WARC framing.
#[derive(Debug, Clone, Copy, PartialEq, Eq, Structural)]
pub enum IoError {
    /// No reader is attached to the record.
    NoReader,
    /// The stream ended before a WARC header was found.
    UnexpectedEof,
    /// A line that is not a WARC version line stands where a record must start.
    InvalidHeader,
    /// A seek to a negative or too large position.
    SeekOutOfRange,
    /// A seek that a streamed input cannot perform.
    Unsupported,
    /// Compressed input that cannot be decompressed.
    InvalidData,
    /// The system clock lies before the Unix epoch (or beyond what a date can hold).
    ClockUnavailable,
    /// The operating system's random source failed.
    RandomUnavailable,
    /// A header block is longer than the configured limit.
    HeaderTooLong,
}

impl IoError {
    /// The text of the error message.
    pub open spec fn text(self) -> Seq<char> {
        match self {
            IoError::NoReader => "No reader set"@,
            IoError::UnexpectedEof => "Stream ended before WARC header"@,
            IoError::InvalidHeader => "Invalid WARC header"@,
            IoError::SeekOutOfRange => "Seek out of range"@,
            IoError::Unsupported => "streamed WARC input does not support repositioning"@,
            IoError::InvalidData => "Gzip decompression error: data error"@,
            IoError::ClockUnavailable => "System time lies before the Unix epoch"@,
            IoError::RandomUnavailable => "could not retrieve random bytes for uuid"@,
            IoError::HeaderTooLong => "header block exceeds max_header_len"@,
        }
    }

    /// The error message.
    pub fn message(&self) -> (r: &'static str)
        ensures
            r@ == self.text(),
    {
        match self {
            IoError::NoReader => "No reader set",
            IoError::UnexpectedEof => "Stream ended before WARC header",
            IoError::InvalidHeader => "Invalid WARC header",
            IoError::SeekOutOfRange => "Seek out of range",
            IoError::Unsupported => "streamed WARC input does not support repositioning",
            IoError::InvalidData => "Gzip decompression error: data error",
            IoError::ClockUnavailable => "System time lies before the Unix epoch",
            IoError::RandomUnavailable => "could not retrieve random bytes for uuid",
            IoError::HeaderTooLong => "header block exceeds max_header_len",
        }
    }
}

/// Target of a seek, as `std::io::SeekFrom`.
#[derive(Debug, Clone, Copy, PartialEq, Eq, Structural)]
pub enum SeekFrom {
    Start(u64),
    End(i64),
    Current(i64),
}

/// A seekable buffered reader over bytes held in memory (what
/// `io::BufReader<io::Cursor<Vec<u8>>>` reads). The position may lie past the end.
pub struct ByteStream {
    data: Vec<u8>,
    pos: usize,
}

/// Abstract state of a [`ByteStream`]: its bytes and its read position.
pub struct StreamModel {
    pub data: Seq<u8>,
    pub pos: nat,
}

impl StreamModel {
    /// The bytes that are still to be read.
    pub open spec fn rest(self) -> Seq<u8> {
        rest_from(self.data, self.pos as int)
    }
}

/// Abstract state of a [`LimitedBufReadSeek`]: the wrapped stream, the limit
/// and the logical position.
pub struct LimitedModel {
    pub stream: StreamModel,
    pub limit: nat,
    pub pos: nat,
}

impl LimitedModel {
    /// The logical position never passes the limit, nor the real position.
    pub open spec fn wf(self) -> bool {
        self.pos <= self.limit && self.pos <= self.stream.pos
    }

    /// Number of bytes the limit still admits.
    pub open spec fn budget(self) -> nat {
        (self.limit - self.pos) as nat
    }

    /// The bytes this reader will still yield.
    pub open spec fn remaining(self) -> Seq<u8> {
        let r = self.stream.rest();
        if self.budget() < r.len() {
            r.take(self.budget() as int)
        } else {
            r
        }
    }
}

/// Bytes from `pos` to the end of `data` (none if `pos` lies past the end).
pub open spec fn rest_from(data: Seq<u8>, pos: int) -> Seq<u8> {
    if pos < data.len() {
        data.subrange(pos, data.len() as int)
    } else {
        Seq::empty()
    }
}

impl View for ByteStream {
    type V = StreamModel;

    closed spec fn view(&self) -> StreamModel {
        StreamModel { data: self.data@, pos: self.pos as nat }
    }
}

impl ByteStream {
    /// Positions and lengths of a stream fit in `usize`.
    pub proof fn lemma_bounds(&self)
        ensures
            self@.pos <= usize::MAX,
            self@.data.len() <= usize::MAX,
    {
        assert(self.data.len() == self.data@.len());
    }

    /// The bytes of the stream.
    pub open spec fn data(&self) -> Seq<u8> {
        self@.data
    }

    /// The read position.
    pub open spec fn position(&self) -> nat {
        self@.pos
    }

    /// The bytes that are still to be read.
    pub open spec fn rest(&self) -> Seq<u8> {
        self@.rest()
    }

    /// A stream over `data`, positioned at its start.
    pub fn new(data: Vec<u8>) -> (r: Self)
        ensures
            r.data() == data@,
            r.position() == 0,
    {
        ByteStream { data, pos: 0 }
    }

    /// Current read position.
    pub fn stream_position(&self) -> (r: u64)
        ensures
            r == self.position(),
    {
        self.pos as u64
    }

    /// The unread bytes (`BufRead::fill_buf`).
    pub fn fill_buf(&self) -> (r: &[u8])
        ensures
            r@ == self.rest(),
    {
        if self.pos < self.data.len() {
            vstd::slice::slice_subrange(self.data.as_slice(), self.pos, self.data.len())
        } else {
            vstd::slice::slice_subrange(self.data.as_slice(), 0, 0)
        }
    }

    /// Mark `amount` unread bytes as read (`BufRead::consume`); never moves past the end.
    pub fn consume(&mut self, amount: usize)
        ensures
            final(self).data() == old(self).data(),
            final(self).rest() == old(self).rest().skip(
                if amount <= old(self).rest().len() { amount as int } else { old(self).rest().len() as int },
            ),
            final(self).position() == if old(self).position() >= old(self).data().len() {
                old(self).position() as int
            } else if amount <= old(self).rest().len() {
                old(self).position() + amount
            } else {
                old(self).data().len() as int
            },
    {
        if self.pos < self.data.len() {
            let avail = self.data.len() - self.pos;
            if amount <= avail {
                self.pos = self.pos + amount;
            } else {
                self.pos = self.data.len();
            }
        }
        assert(self.rest() =~= old(self).rest().skip(
            if amount <= old(self).rest().len() { amount as int } else { old(self).rest().len() as int },
        ));
    }

    /// Move the read position by `delta` bytes (what `Seek::seek` with
    /// `SeekFrom::Current` does on a cursor).
    pub fn seek_relative(&mut self, delta: i64) -> (r: Result<u64, IoError>)
        ensures
            final(self).data() == old(self).data(),
            match r {
                Ok(p) => {
                    &&& 0 <= old(self).position() + delta <= usize::MAX
                    &&& p == old(self).position() + delta
                    &&& final(self).position() == p
                },
                Err(e) => {
                    &&& e == IoError::SeekOutOfRange
                    &&& !(0 <= old(self).position() + delta <= usize::MAX)
                    &&& final(self).position() == old(self).position()
                },
            },
    {
        let target: i128 = self.pos as i128 + delta as i128;
        if target < 0 || target > usize::MAX as i128 {
            return Err(IoError::SeekOutOfRange);
        }
        self.pos = target as usize;
        Ok(self.pos as u64)
    }

    /// Give back the bytes of the stream.
    pub fn into_inner(self) -> (r: Vec<u8>)
        ensures
            r@ == self.data(),
    {
        self.data
    }
}

/// A limited seekable buffered reader.
/// Wraps an existing [`ByteStream`], terminating when `limit` is reached.
pub struct LimitedBufReadSeek {
    reader: ByteStream,
    limit: usize,
    pos: usize,
}

impl View for LimitedBufReadSeek {
    type V = LimitedModel;

    closed spec fn view(&self) -> LimitedModel {
        LimitedModel { stream: self.reader@, limit: self.limit as nat, pos: self.pos as nat }
    }
}

impl LimitedBufReadSeek {
    /// Positions, limits and lengths of a limited reader fit in `usize`.
    pub proof fn lemma_bounds(&self)
        ensures
            self@.pos <= usize::MAX,
            self@.limit <= usize::MAX,
            self@.stream.pos <= usize::MAX,
            self@.stream.data.len() <= usize::MAX,
    {
        self.reader.lemma_bounds();
    }

    /// The wrapped stream.
    pub open spec fn inner(&self) -> StreamModel {
        self@.stream
    }

    /// The limit on the logical position.
    pub open spec fn limit(&self) -> nat {
        self@.limit
    }

    /// The logical position (bytes read since the limit was set).
    pub open spec fn logical_pos(&self) -> nat {
        self@.pos
    }

    /// The logical position never passes the limit.
    pub open spec fn wf(&self) -> bool {
        self@.wf()
    }

    /// The bytes this reader will still yield.
    pub open spec fn remaining(&self) -> Seq<u8> {
        self@.remaining()
    }

    /// Create a new limited reader from a buffered reader instance
    /// (no limit when `limit` is `None`).
    pub fn new(reader: ByteStream, limit: Option<usize>) -> (r: Self)
        ensures
            r.wf(),
            r.inner() == reader@,
            r.limit() == match limit {
                Some(l) => l as nat,
                None => usize::MAX as nat,
            },
            r.logical_pos() == 0,
    {
        let limit = match limit {
            Some(l) => l,
            None => usize::MAX,
        };
        LimitedBufReadSeek { reader, limit, pos: 0 }
    }

    /// Change the limit of the reader.
    /// Also resets the logical stream position to 0. Use [`Self::real_stream_position()`] to get
    /// the real position on the original stream.
    pub fn set_limit(&mut self, limit: usize)
        ensures
            final(self).wf(),
            final(self).inner() == old(self).inner(),
            final(self).limit() == limit,
            final(self).logical_pos() == 0,
    {
        self.limit = limit;
        self.pos = 0;
    }

    /// Get the real (not the logical) stream position.
    pub fn real_stream_position(&self) -> (r: Result<u64, IoError>)
        ensures
            r == Ok::<u64, IoError>(self.inner().pos as u64),
    {
        Ok(self.reader.stream_position())
    }

    /// The real position on the wrapped stream.
    pub fn inner_position(&self) -> (r: usize)
        ensures
            r == self.inner().pos,
    {
        self.reader.pos
    }

    /// Replace the internal stream with a new one and hand ownership of the previous
    /// stream back to the caller. Resets `limit` and `pos`.
    pub fn replace_reader(&mut self, new_reader: ByteStream) -> (r: ByteStream)
        ensures
            r@ == old(self).inner(),
            final(self).wf(),
            final(self).inner() == new_reader@,
            final(self).limit() == usize::MAX,
            final(self).logical_pos() == 0,
    {
        self.limit = usize::MAX;
        self.pos = 0;
        let mut old_reader = new_reader;
        std::mem::swap(&mut self.reader, &mut old_reader);
        old_reader
    }

    /// Give back the wrapped stream.
    pub fn into_inner(self) -> (r: ByteStream)
        ensures
            r@ == self.inner(),
    {
        self.reader
    }

    /// The bytes that can be read before the limit (`BufRead::fill_buf`).
    pub fn fill_buf(&self) -> (r: &[u8])
        requires
            self.wf(),
        ensures
            r@ == self.remaining(),
    {
        let buf = self.reader.fill_buf();
        let budget = self.limit - self.pos;
        if budget < buf.len() {
            vstd::slice::slice_subrange(buf, 0, budget)
        } else {
            buf
        }
    }

    /// Mark `amount` bytes as read (`BufRead::consume`), at most up to the limit.
    pub fn consume(&mut self, amount: usize)
        requires
            old(self).wf(),
            amount <= old(self).remaining().len(),
        ensures
            final(self).wf(),
            final(self).limit() == old(self).limit(),
            final(self).logical_pos() == old(self).logical_pos() + amount,
            final(self).inner().data == old(self).inner().data,
            final(self).inner().pos == old(self).inner().pos + amount,
            final(self).remaining() == old(self).remaining().skip(amount as int),
    {
        self.reader.consume(amount);
        self.pos = self.pos + amount;
        assert(self.remaining() =~= old(self).remaining().skip(amount as int));
    }

    /// Read up to `buf.len()` bytes, not past the limit, into the front of
    /// `buf` (`Read::read`); returns how many were read.
    pub fn read(&mut self, buf: &mut [u8]) -> (r: usize)
        requires
            old(self).wf(),
        ensures
            final(self).wf(),
            r == if old(buf)@.len() < old(self).remaining().len() {
                old(buf)@.len()
            } else {
                old(self).remaining().len()
            },
            final(buf)@.len() == old(buf)@.len(),
            final(buf)@.take(r as int) == old(self).remaining().take(r as int),
            final(buf)@.skip(r as int) == old(buf)@.skip(r as int),
            final(self).limit() == old(self).limit(),
            final(self).logical_pos() == old(self).logical_pos() + r,
            final(self).inner().data == old(self).inner().data,
            final(self).remaining() == old(self).remaining().skip(r as int),
    {
        let window = self.fill_buf();
        let n = if buf.len() < window.len() {
            buf.len()
        } else {
            window.len()
        };
        let mut i: usize = 0;
        while i < n
            invariant
                n <= window@.len(),
                n <= buf@.len(),
                i <= n,
                buf@.len() == old(buf)@.len(),
                forall|j: int| 0 <= j < i ==> buf@[j] == window@[j],
                forall|j: int| n <= j < buf@.len() ==> buf@[j] == old(buf)@[j],
            decreases n - i,
        {
            buf[i] = window[i];
            i = i + 1;
        }
        assert(buf@.take(n as int) =~= window@.take(n as int));
        assert(buf@.skip(n as int) =~= old(buf)@.skip(n as int));
        self.consume(n);
        n
    }

    /// Read everything up to the limit into `out` (`Read::read_to_end`).
    pub fn read_to_end(&mut self, out: &mut Vec<u8>) -> (r: usize)
        requires
            old(self).wf(),
        ensures
            final(self).wf(),
            final(out)@ == old(out)@ + old(self).remaining(),
            r == old(self).remaining().len(),
            final(self).remaining().len() == 0,
            final(self).limit() == old(self).limit(),
            final(self).inner().data == old(self).inner().data,
            final(self).inner().pos == old(self).inner().pos + r,
            final(self).logical_pos() == old(self).logical_pos() + r,
    {
        let buf = self.fill_buf();
        let n = buf.len();
        let mut i: usize = 0;
        while i < n
            invariant
                n == buf@.len(),
                i <= n,
                out@ == old(out)@ + buf@.take(i as int),
            decreases n - i,
        {
            out.push(buf[i]);
            i = i + 1;
            assert(out@ =~= old(out)@ + buf@.take(i as int));
        }
        assert(buf@.take(n as int) =~= buf@);
        self.consume(n);
        n
    }

    /// Seek back to the logical start (`Seek::rewind`).
    pub fn rewind(&mut self)
        requires
            old(self).wf(),
        ensures
            final(self).wf(),
            final(self).limit() == old(self).limit(),
            final(self).logical_pos() == 0,
            final(self).inner().data == old(self).inner().data,
            final(self).inner().pos == old(self).inner().pos - old(self).logical_pos(),
    {
        self.reader.pos = self.reader.pos - self.pos;
        self.pos = 0;
    }

    /// Seek to a logical position, clamped to the limit (`Seek::seek`).
    pub fn seek(&mut self, pos: SeekFrom) -> (r: Result<u64, IoError>)
        requires
            old(self).wf(),
            old(self).logical_pos() <= i64::MAX,
        ensures
            final(self).wf(),
            final(self).limit() == old(self).limit(),
            final(self).inner().data == old(self).inner().data,
            ({
                let target: int = match pos {
                    SeekFrom::Start(p) => p as int,
                    SeekFrom::End(p) => old(self).limit() + p,
                    SeekFrom::Current(p) => old(self).logical_pos() + p,
                };
                let clamped: int = if target > old(self).limit() { old(self).limit() as int } else { target };
                let inner_target: int = old(self).inner().pos + clamped - old(self).logical_pos();
                match r {
                    Ok(p) => {
                        &&& 0 <= target <= i64::MAX
                        &&& 0 <= inner_target <= usize::MAX
                        &&& p == clamped
                        &&& final(self).logical_pos() == clamped
                        &&& final(self).inner().pos == inner_target
                    },
                    Err(e) => {
                        &&& e == IoError::SeekOutOfRange
                        &&& (target < 0 || target > i64::MAX || inner_target < 0 || inner_target > usize::MAX)
                        &&& final(self).logical_pos() == old(self).logical_pos()
                        &&& final(self).inner().pos == old(self).inner().pos
                    },
                }
            }),
    {
        let mut new_pos: i128 = match pos {
            SeekFrom::Start(p) => p as i128,
            SeekFrom::End(p) => self.limit as i128 + p as i128,
            SeekFrom::Current(p) => self.pos as i128 + p as i128,
        };
        if new_pos < 0 || new_pos > i64::MAX as i128 {
            return Err(IoError::SeekOutOfRange);
        } else if new_pos > self.limit as i128 {
            new_pos = self.limit as i128;
        }
        let diff: i128 = new_pos - self.pos as i128;
        assert(i64::MIN <= diff <= i64::MAX);
        let delta: i64 = diff as i64;
        match self.reader.seek_relative(delta) {
            Ok(_) => {},
            Err(e) => {
                return Err(e);
            },
        }
        self.pos = new_pos as usize;
        Ok(self.pos as u64)
    }
}

} // verus!
