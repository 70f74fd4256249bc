//! Reading an archive from the chunks of a streaming request. The channel the
//! chunks arrive on stays with the caller: to fill its window the reader
//! asks for messages one at a time, and the caller hands each one over.
use crate::stream_io::{IoError, SeekFrom};
use vstd::prelude::*;

verus! {

/// Bytes that compression detection needs in the first window.
pub const MAGIC_LEN: usize = 4;

/// Reader over the archive chunks received by a streaming call.
pub struct ChannelReader {
    current: Vec<u8>,
    pos: u64,
}

/// Abstract state of a [`ChannelReader`]: the unread bytes of the current
/// window and the number of bytes consumed so far.
pub struct ChannelModel {
    pub window: Seq<u8>,
    pub pos: nat,
}

impl View for ChannelReader {
    type V = ChannelModel;

    closed spec fn view(&self) -> ChannelModel {
        ChannelModel { window: self.current@, pos: self.pos as nat }
    }
}

/// Whether filling the window of a reader in state `m` still needs a
/// message, unless the channel already reported its end during this fill:
/// the window is empty, or it is the first window and shorter than
/// [`MAGIC_LEN`].
pub open spec fn wants_message(m: ChannelModel, closed: bool) -> bool {
    !closed && (m.window.len() == 0 || (m.pos == 0 && m.window.len() < MAGIC_LEN))
}

impl ChannelReader {
    /// A reader that has received nothing yet.
    pub fn new() -> (r: Self)
        ensures
            r@ == (ChannelModel { window: Seq::empty(), pos: 0 }),
    {
        ChannelReader { current: Vec::new(), pos: 0 }
    }

    /// Whether `fill_buf` must receive another message before it hands out
    /// its window; `closed` says whether the channel reported its end during
    /// this fill.
    pub fn needs_message(&self, closed: bool) -> (r: bool)
        ensures
            r == wants_message(self@, closed),
    {
        !closed && (self.current.len() == 0 || (self.pos == 0 && self.current.len() < MAGIC_LEN))
    }

    /// Take a message received while filling the window: a chunk extends the
    /// window (an empty one changes nothing), `None` means the channel is
    /// closed. Returns whether the channel is closed.
    pub fn receive(&mut self, message: Option<Vec<u8>>) -> (closed: bool)
        ensures
            match message {
                Some(chunk) => !closed && final(self)@ == (ChannelModel {
                    window: old(self)@.window + chunk@,
                    ..old(self)@
                }),
                None => closed && final(self)@ == old(self)@,
            },
    {
        match message {
            Some(chunk) => {
                let mut i: usize = 0;
                let ghost start = self.current@;
                while i < chunk.len()
                    invariant
                        i <= chunk@.len(),
                        self.current@ == start + chunk@.take(i as int),
                        self.pos == old(self).pos,
                    decreases chunk@.len() - i,
                {
                    self.current.push(chunk[i]);
                    assert(chunk@.take(i + 1) =~= chunk@.take(i as int).push(chunk@[i as int]));
                    i = i + 1;
                }
                assert(chunk@.take(chunk@.len() as int) =~= chunk@);
                false
            },
            None => true,
        }
    }

    /// The window (`BufRead::fill_buf` once no more messages are needed):
    /// empty at the end of the archive.
    pub fn window(&self) -> (r: &[u8])
        ensures
            r@ == self@.window,
    {
        self.current.as_slice()
    }

    /// Mark up to `amount` bytes of the window as read (`BufRead::consume`).
    pub fn consume(&mut self, amount: usize)
        requires
            old(self)@.pos + old(self)@.window.len() <= u64::MAX,
        ensures
            ({
                let n = if amount < old(self)@.window.len() {
                    amount as int
                } else {
                    old(self)@.window.len() as int
                };
                final(self)@ == (ChannelModel { window: old(self)@.window.skip(n), pos: old(self)@.pos + n as nat })
            }),
    {
        let n = if amount < self.current.len() {
            amount
        } else {
            self.current.len()
        };
        let mut rest: Vec<u8> = Vec::new();
        let mut i: usize = n;
        while i < self.current.len()
            invariant
                n <= i <= self.current@.len(),
                self.current@ == old(self)@.window,
                rest@ == self.current@.subrange(n as int, i as int),
            decreases self.current@.len() - i,
        {
            rest.push(self.current[i]);
            i = i + 1;
        }
        assert(rest@ =~= old(self)@.window.skip(n as int));
        self.current = rest;
        self.pos = self.pos + n as u64;
    }

    /// Copy the front of the window into `buf` and mark it read
    /// (`Read::read` once the window is filled); an empty `buf` reads
    /// nothing.
    pub fn read(&mut self, buf: &mut [u8]) -> (r: usize)
        requires
            old(self)@.pos + old(self)@.window.len() <= u64::MAX,
        ensures
            r == if old(buf)@.len() < old(self)@.window.len() {
                old(buf)@.len()
            } else {
                old(self)@.window.len()
            },
            final(buf)@.len() == old(buf)@.len(),
            final(buf)@.take(r as int) == old(self)@.window.take(r as int),
            final(buf)@.skip(r as int) == old(buf)@.skip(r as int),
            final(self)@ == (ChannelModel { window: old(self)@.window.skip(r as int), pos: old(self)@.pos + r as nat }),
    {
        if buf.len() == 0 {
            assert(old(self)@.window.skip(0) =~= old(self)@.window);
            assert(buf@.take(0) =~= old(self)@.window.take(0));
            return 0;
        }
        let n = if buf.len() < self.current.len() {
            buf.len()
        } else {
            self.current.len()
        };
        let mut i: usize = 0;
        while i < n
            invariant
                n <= self.current@.len(),
                n <= buf@.len(),
                i <= n,
                self.current@ == old(self)@.window,
                buf@.len() == old(buf)@.len(),
                forall|j: int| 0 <= j < i ==> buf@[j] == self.current@[j],
                forall|j: int| n <= j < buf@.len() ==> buf@[j] == old(buf)@[j],
            decreases n - i,
        {
            buf[i] = self.current[i];
            i = i + 1;
        }
        assert(buf@.take(n as int) =~= old(self)@.window.take(n as int));
        assert(buf@.skip(n as int) =~= old(buf)@.skip(n as int));
        self.consume(n);
        n
    }

    /// Number of bytes read so far (`Seek::stream_position`).
    pub fn stream_position(&self) -> (r: u64)
        ensures
            r == self@.pos,
    {
        self.pos
    }

    /// `Seek::seek`: a streamed input only reports where it is (a relative
    /// seek by 0, or a seek to the current position).
    pub fn seek(&self, pos: SeekFrom) -> (r: Result<u64, IoError>)
        ensures
            match pos {
                SeekFrom::Current(d) if d == 0 => r == Ok::<u64, IoError>(self@.pos as u64),
                SeekFrom::Start(p) if p == self@.pos => r == Ok::<u64, IoError>(self@.pos as u64),
                _ => r == Err::<u64, IoError>(IoError::Unsupported),
            },
    {
        match pos {
            SeekFrom::Current(0) => Ok(self.pos),
            SeekFrom::Start(p) if p == self.pos => Ok(self.pos),
            _ => Err(IoError::Unsupported),
        }
    }
}

} // verus!
