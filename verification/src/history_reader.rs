//! The sliding window over a byte source: a stable history of bytes already
//! consumed, followed by a window of bytes still to be consumed.

use crate::deque::{deque_as_slice, deque_bytes, deque_len, deque_new, deque_pop_front, deque_push_back};
use crate::CodecError;
use slice_deque::SliceDeque;
use vstd::prelude::*;
use vstd::slice::slice_subrange;

verus! {

/// Streams a byte source through one buffer that is split into a history
/// and a window. Moving on turns the front of the window into history,
/// fetches as many new bytes behind the window as the source still has, and
/// drops the oldest history beyond its capacity.
pub struct HistoryReader {
    source: Vec<u8>,
    position: usize,
    buffer: SliceDeque<u8>,
    history_size: usize,
    window_size: usize,
    current_history_size: usize,
}

/// The smaller of two numbers.
pub open spec fn min_int(a: int, b: int) -> int {
    if a <= b {
        a
    } else {
        b
    }
}

/// The history after `consumed` bytes of `source`: the last bytes consumed,
/// at most `limit` of them.
pub open spec fn history_of(source: Seq<u8>, consumed: int, limit: int) -> Seq<u8> {
    source.subrange(consumed - min_int(consumed, limit), consumed)
}

impl HistoryReader {
    /// All the bytes of the source, fetched or not.
    pub closed spec fn source_bytes(&self) -> Seq<u8> {
        self.source@
    }

    /// How many bytes of the source have left the window: where the window
    /// starts in the source.
    pub closed spec fn consumed(&self) -> int {
        self.position - self.window_size
    }

    /// How many bytes of the source were fetched: where the window ends.
    pub closed spec fn fetched(&self) -> int {
        self.position as int
    }

    /// The most bytes that the history holds.
    pub closed spec fn history_limit(&self) -> int {
        self.history_size as int
    }

    /// How many bytes the buffer holds.
    pub closed spec fn buffered(&self) -> int {
        deque_bytes(self.buffer).len() as int
    }

    /// The buffer holds the history and the window, one behind the other, and
    /// nothing else; the history is within its capacity.
    pub closed spec fn wf(&self) -> bool {
        &&& self.window_size <= self.position <= self.source@.len()
        &&& self.current_history_size == min_int(
            self.position - self.window_size,
            self.history_size as int,
        )
        &&& deque_bytes(self.buffer) == self.source@.subrange(
            self.position - self.window_size - self.current_history_size,
            self.position as int,
        )
    }

    /// Where the history starts in the source: every byte before it was
    /// dropped, or never was in the buffer.
    pub open spec fn history_start(&self) -> int {
        self.consumed() - min_int(self.consumed(), self.history_limit())
    }

    /// The history: the bytes consumed last, oldest first.
    pub open spec fn history_view(&self) -> Seq<u8> {
        history_of(self.source_bytes(), self.consumed(), self.history_limit())
    }

    /// The window: the bytes fetched and not yet consumed.
    pub open spec fn window_view(&self) -> Seq<u8> {
        self.source_bytes().subrange(self.consumed(), self.fetched())
    }

    /// The window lies inside the source, and the buffer is as long as the
    /// history and the window together.
    pub proof fn lemma_wf(&self)
        requires
            self.wf(),
        ensures
            0 <= self.history_start() <= self.consumed() <= self.fetched()
                <= self.source_bytes().len(),
            self.history_limit() >= 0,
            self.history_view().len() + self.window_view().len() == self.buffered(),
            self.history_view().len() <= self.history_limit(),
    {
    }

    /// Starts reading `source` with a history of at most `history_size` bytes
    /// and a window of `current_window_size` bytes. One window's worth of
    /// bytes becomes the first history, the next one the first window.
    pub fn new(source: Vec<u8>, history_size: usize, current_window_size: usize) -> (made: Result<
        HistoryReader,
        CodecError,
    >)
        ensures
            match made {
                Ok(reader) => {
                    &&& current_window_size <= history_size
                    &&& 2 * current_window_size <= source@.len()
                    &&& reader.wf()
                    &&& reader.source_bytes() == source@
                    &&& reader.history_limit() == history_size
                    &&& reader.consumed() == current_window_size
                    &&& reader.fetched() == 2 * current_window_size
                },
                Err(error) => if current_window_size > history_size {
                    error == CodecError::Configuration
                } else {
                    source@.len() < 2 * current_window_size && error == CodecError::TruncatedInput
                },
            },
    {
        if current_window_size > history_size {
            return Err(CodecError::Configuration);
        }
        if source.len() < current_window_size || source.len() - current_window_size
            < current_window_size {
            return Err(CodecError::TruncatedInput);
        }
        let mut r = HistoryReader {
            source,
            position: 0,
            buffer: deque_new(),
            history_size,
            window_size: current_window_size,
            current_history_size: 0,
        };
        let buff_size: usize = current_window_size + current_window_size;
        let bytes_read = r.read(buff_size);
        r.current_history_size = r.window_size;
        proof {
            assert(bytes_read == buff_size);
            assert(deque_bytes(r.buffer) =~= r.source@.subrange(0, r.position as int));
        }
        Ok(r)
    }

    /// Fetches up to `count` bytes from the source into the back of the
    /// buffer. Returns fewer than `count` only where the source ends.
    fn read(&mut self, count: usize) -> (bytes_read: usize)
        requires
            old(self).position <= old(self).source@.len(),
        ensures
            bytes_read == min_int(count as int, old(self).source@.len() - old(self).position),
            final(self).position == old(self).position + bytes_read,
            deque_bytes(final(self).buffer) == deque_bytes(old(self).buffer) + old(
                self,
            ).source@.subrange(old(self).position as int, final(self).position as int),
            final(self).source == old(self).source,
            final(self).history_size == old(self).history_size,
            final(self).window_size == old(self).window_size,
            final(self).current_history_size == old(self).current_history_size,
    {
        let start: usize = self.position;
        let mut st: usize = 0;
        while st < count && self.position < self.source.len()
            invariant
                st <= count,
                self.position == start + st,
                self.position <= self.source@.len(),
                self.source == old(self).source,
                self.history_size == old(self).history_size,
                self.window_size == old(self).window_size,
                self.current_history_size == old(self).current_history_size,
                deque_bytes(self.buffer) == deque_bytes(old(self).buffer) + self.source@.subrange(
                    start as int,
                    self.position as int,
                ),
            decreases count - st,
        {
            let byte: u8 = self.source[self.position];
            let ghost before = deque_bytes(self.buffer);
            deque_push_back(&mut self.buffer, byte);
            self.position += 1;
            st += 1;
            proof {
                assert(self.source@.subrange(start as int, self.position as int)
                    =~= self.source@.subrange(start as int, self.position - 1).push(byte));
                assert(deque_bytes(self.buffer) =~= deque_bytes(old(self).buffer)
                    + self.source@.subrange(start as int, self.position as int));
            }
        }
        st
    }

    /// Moves on by `move_bytes`: that many bytes pass from the window into
    /// the history, and as many are fetched behind the window, or fewer where
    /// the source ends, so that the window then shrinks. Returns the new
    /// history and window.
    pub fn next(&mut self, move_bytes: usize) -> (views: (&[u8], &[u8]))
        requires
            old(self).wf(),
            move_bytes <= old(self).window_view().len(),
        ensures
            final(self).wf(),
            final(self).source_bytes() == old(self).source_bytes(),
            final(self).history_limit() == old(self).history_limit(),
            final(self).consumed() == old(self).consumed() + move_bytes,
            final(self).fetched() == min_int(
                old(self).fetched() + move_bytes,
                old(self).source_bytes().len() as int,
            ),
            views.0@ == final(self).history_view(),
            views.1@ == final(self).window_view(),
            views.0@.len() + views.1@.len() == final(self).buffered(),
            views.0@.len() <= final(self).history_limit(),
            final(self).history_start() >= old(self).history_start(),
    {
        let ghost source = self.source@;
        let ghost first = self.position - self.window_size - self.current_history_size;
        let bytes_read = self.read(move_bytes);
        let (to_pop, history_size_change): (usize, usize) = if bytes_read < move_bytes {
            let size_change: usize = move_bytes - bytes_read;
            self.window_size -= size_change;
            let history_diff: usize = self.history_size - self.current_history_size;
            let history_change: usize = if move_bytes <= history_diff {
                move_bytes
            } else {
                history_diff
            };
            (move_bytes - history_change, history_change)
        } else {
            let history_diff: usize = self.history_size - self.current_history_size;
            if history_diff == 0 {
                (bytes_read, 0)
            } else if history_diff < bytes_read {
                (bytes_read - history_diff, history_diff)
            } else {
                (0, bytes_read)
            }
        };
        self.current_history_size += history_size_change;
        let ghost filled = deque_bytes(self.buffer);
        proof {
            assert(filled =~= source.subrange(first, self.position as int));
        }
        let mut popped: usize = 0;
        while popped < to_pop
            invariant
                popped <= to_pop <= filled.len(),
                deque_bytes(self.buffer) == filled.skip(popped as int),
                self.source@ == source,
                self.position == old(self).position + bytes_read,
                self.history_size == old(self).history_size,
                self.window_size == old(self).window_size - (move_bytes - bytes_read),
                self.current_history_size == old(self).current_history_size + history_size_change,
            decreases to_pop - popped,
        {
            let _ = deque_pop_front(&mut self.buffer);
            popped += 1;
            proof {
                assert(filled.skip(popped - 1).skip(1) =~= filled.skip(popped as int));
            }
        }
        proof {
            assert(deque_bytes(self.buffer) =~= source.subrange(
                self.position - self.window_size - self.current_history_size,
                self.position as int,
            ));
        }
        self.current()
    }

    /// The history and the window as they are now.
    pub fn current(&self) -> (views: (&[u8], &[u8]))
        requires
            self.wf(),
        ensures
            views.0@ == self.history_view(),
            views.1@ == self.window_view(),
            views.0@.len() + views.1@.len() == self.buffered(),
            views.0@.len() <= self.history_limit(),
    {
        let all = deque_as_slice(&self.buffer);
        let buff_len: usize = deque_len(&self.buffer);
        let history = slice_subrange(all, 0, self.current_history_size);
        let window = slice_subrange(all, self.current_history_size, buff_len);
        proof {
            assert(history@ =~= self.history_view());
            assert(window@ =~= self.window_view());
        }
        (history, window)
    }
}

} // verus!
