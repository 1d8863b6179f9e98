//! One chunk of the byte stream: a buffer with its line-start index and the
//! position arithmetic that fuses chunks into a global coordinate system.

use vstd::prelude::*;
use vstd::slice::slice_subrange;

use crate::lines::TERMINATOR;
use crate::lines::continues_of;
use crate::lines::lemma_line_starts;
use crate::lines::lemma_terminator_offsets;
use crate::lines::line_count_of;
use crate::lines::line_of;
use crate::lines::line_starts_of;
use crate::lines::tail_fragment_len;
use crate::lines::terminator_count;
use crate::lines::terminator_offsets;
use crate::position::Position;
use crate::position::SpecPos;
use crate::position::lemma_scan_backward_values;
use crate::position::lemma_scan_forward_values;
use crate::position::scan_backward;
use crate::position::scan_forward;

verus! {

/// An in-memory slice of the stream with its derived line index.
///
/// `line_start_offset` holds the start of every line in `data` plus a
/// trailing bound, and `line_feed_offset` the offsets of the terminator
/// bytes; both are pure functions of `data`, recomputed whenever the payload
/// is (re)loaded.
#[derive(Debug, Clone)]
pub struct Chunk {
    data: Vec<u8>,
    line_start_offset: Vec<usize>,
    line_feed_offset: Vec<usize>,
}

impl View for Chunk {
    type V = Seq<u8>;

    closed spec fn view(&self) -> Seq<u8> {
        self.data@
    }
}

impl Chunk {
    /// The index really is the line model of the payload.
    pub closed spec fn wf(&self) -> bool {
        &&& self.line_start_offset@.map_values(|off: usize| off as int) == line_starts_of(
            self.data@,
        )
        &&& self.line_feed_offset@.map_values(|off: usize| off as int) == terminator_offsets(
            self.data@,
        )
    }

    /// The line-start table, as the model sees it.
    pub closed spec fn spec_line_starts(&self) -> Seq<int> {
        self.line_start_offset@.map_values(|off: usize| off as int)
    }

    /// Build a chunk from its payload: one linear scan recording the offset
    /// after every terminator, with the trailing sentinel when the last line
    /// is unterminated.
    pub fn new(data: Vec<u8>) -> (chunk: Chunk)
        ensures
            chunk.wf(),
            chunk@ == data@,
    {
        let ghost whole = data@;
        let mut line_starts: Vec<usize> = Vec::new();
        let mut line_feed: Vec<usize> = Vec::new();
        line_starts.push(0);
        let n = data.len();
        let mut i: usize = 0;
        while i < n
            invariant
                i <= n,
                n == whole.len(),
                data@ == whole,
                line_starts@.len() >= 1,
                line_starts@.map_values(|off: usize| off as int) == seq![0int]
                    + terminator_offsets(whole.take(i as int)).map_values(|off: int| off + 1),
                line_feed@.map_values(|off: usize| off as int) == terminator_offsets(
                    whole.take(i as int),
                ),
            decreases n - i,
        {
            let ghost feed0 = line_feed@.map_values(|off: usize| off as int);
            let ghost starts0 = line_starts@.map_values(|off: usize| off as int);
            let ghost prefix = terminator_offsets(whole.take(i as int));
            proof {
                assert(whole.take(i + 1).drop_last() =~= whole.take(i as int));
                assert(whole.take(i + 1).last() == whole[i as int]);
            }
            if data[i] == TERMINATOR {
                line_feed.push(i);
                line_starts.push(i + 1);
                proof {
                    assert(terminator_offsets(whole.take(i + 1)) =~= prefix.push(i as int));
                    assert(line_feed@.map_values(|off: usize| off as int) =~= feed0.push(
                        i as int,
                    ));
                    assert(prefix.push(i as int).map_values(|off: int| off + 1) =~= prefix
                        .map_values(|off: int| off + 1)
                        .push(i + 1));
                    assert(line_starts@.map_values(|off: usize| off as int) =~= starts0.push(
                        i + 1,
                    ));
                    assert(starts0.push(i + 1) =~= seq![0int] + prefix.map_values(
                        |off: int| off + 1,
                    ).push(i + 1));
                }
            } else {
                proof {
                    assert(terminator_offsets(whole.take(i + 1)) =~= prefix);
                }
            }
            i = i + 1;
        }
        proof {
            assert(whole.take(n as int) =~= whole);
        }
        let last = line_starts[line_starts.len() - 1];
        proof {
            let raw = seq![0int] + terminator_offsets(whole).map_values(|off: int| off + 1);
            assert(line_starts@.map_values(|off: usize| off as int).last() == raw.last());
        }
        if last != n {
            line_starts.push(n);
            proof {
                let raw = seq![0int] + terminator_offsets(whole).map_values(|off: int| off + 1);
                assert(line_starts@.map_values(|off: usize| off as int) =~= raw + seq![
                    whole.len() as int,
                ]);
            }
        }
        Chunk { data, line_start_offset: line_starts, line_feed_offset: line_feed }
    }

    /// True iff the final line of this chunk is incomplete and is continued
    /// by the next chunk: the payload is non-empty and does not end on the
    /// terminator.
    pub fn continue_to_next_chunk(&self) -> (r: bool)
        ensures
            r == continues_of(self@),
    {
        if self.data.len() == 0 {
            false
        } else {
            self.data[self.data.len() - 1] != TERMINATOR
        }
    }

    /// Number of lines in this chunk, an unterminated final fragment
    /// counting as one; 0 when the payload is empty or released.
    pub fn get_line_count(&self) -> (count: usize)
        requires
            self.wf(),
        ensures
            count == line_count_of(self@),
    {
        let _n: usize = self.data.len();
        let c = self.line_feed_offset.len();
        proof {
            lemma_terminator_offsets(self.data@);
            assert(c == terminator_count(self.data@));
        }
        if self.continue_to_next_chunk() {
            c + 1
        } else {
            c
        }
    }

    /// The bytes of line `idx` of this chunk, terminator included when the
    /// line has one; `None` exactly when `idx` is at or past the line count,
    /// the expected miss a caller answers by probing the adjacent chunk.
    pub fn get_line_content(&self, idx: usize) -> (r: Option<&[u8]>)
        requires
            self.wf(),
        ensures
            r is Some <==> idx < line_count_of(self@),
            r is Some ==> r.unwrap()@ == line_of(self@, idx as int),
    {
        if self.data.len() == 0 {
            proof {
                lemma_line_starts(self.data@);
            }
            return None;
        }
        if idx >= self.get_line_count() {
            return None;
        }
        proof {
            lemma_line_starts(self.data@);
            assert(self.line_start_offset@.len() == line_count_of(self.data@) + 1);
            assert(self.line_start_offset@[idx as int] as int == line_starts_of(self.data@)[idx as int]);
            assert(self.line_start_offset@[idx as int + 1] as int == line_starts_of(
                self.data@,
            )[idx as int + 1]);
            assert(line_starts_of(self.data@)[idx as int] < line_starts_of(self.data@)[idx as int
                + 1]);
            assert(line_starts_of(self.data@)[idx as int + 1] <= self.data@.len());
        }
        let start = self.line_start_offset[idx];
        let end = self.line_start_offset[idx + 1];
        Some(slice_subrange(self.data.as_slice(), start, end))
    }

    /// Forward fold: from the position at which this chunk begins in the
    /// stream, the position immediately after it — the seed for the next
    /// chunk.  Equal to scanning the chunk's bytes first to last.
    pub fn calc_end(&self, start: Position) -> (end: Position)
        requires
            self.wf(),
            start.row + terminator_count(self@) <= usize::MAX,
            line_count_of(self@) <= 1 ==> start.column + self@.len() <= usize::MAX,
        ensures
            end@ == scan_forward(self@, start@),
    {
        let mut end = start;
        if self.data.len() == 0 {
            return end;
        }
        proof {
            lemma_terminator_offsets(self.data@);
            lemma_line_starts(self.data@);
            lemma_scan_forward_values(self.data@, start@);
        }
        let last_line_idx = self.get_line_count() - 1;
        end.row = end.row + last_line_idx;
        if end.row != start.row {
            end.column = 0;
        }
        let line_len = match self.get_line_content(last_line_idx) {
            Some(line) => line.len(),
            None => 0,
        };
        end.column = end.column + line_len;
        if !self.continue_to_next_chunk() {
            end.row = end.row + 1;
            end.column = 0;
        }
        end
    }

    /// The seed for a backward fold, measured from this chunk's tail: when
    /// the final line is incomplete the scan is already that many bytes into
    /// it, otherwise the tail sits exactly on a line boundary.
    pub fn calc_backward_start(&self) -> (pos: Position)
        requires
            self.wf(),
        ensures
            pos@ == (SpecPos { row: 0, col: tail_fragment_len(self@) }),
    {
        let mut pos = Position { row: 0, column: 0 };
        if self.data.len() == 0 {
            return pos;
        }
        proof {
            lemma_terminator_offsets(self.data@);
            lemma_line_starts(self.data@);
        }
        if self.continue_to_next_chunk() {
            let line_len = match self.get_line_content(self.get_line_count() - 1) {
                Some(line) => line.len(),
                None => 0,
            };
            pos.column = pos.column + line_len;
        }
        pos
    }

    /// Backward fold: from the scan state at this chunk's tail, the position
    /// at its head after consuming the chunk while walking toward the start
    /// of the stream.  Equal to scanning the chunk's bytes last to first.
    pub fn calc_backward_end(&self, start: Position) -> (end: Position)
        requires
            self.wf(),
            start.row + terminator_count(self@) <= usize::MAX,
            terminator_count(self@) == 0 ==> start.column + self@.len() <= usize::MAX,
        ensures
            end@ == scan_backward(self@, start@),
    {
        let mut end = start;
        if self.data.len() == 0 {
            return end;
        }
        proof {
            lemma_terminator_offsets(self.data@);
            lemma_line_starts(self.data@);
            lemma_scan_backward_values(self.data@, start@);
        }
        let count = self.get_line_count();
        end.row = end.row + (count - 1);
        if !self.continue_to_next_chunk() {
            end.row = end.row + 1;
        }
        if end.row != start.row {
            end.column = 0;
            if self.data[0] != TERMINATOR {
                let line_len = match self.get_line_content(0) {
                    Some(line) => line.len(),
                    None => 0,
                };
                end.column = line_len - 1;
            }
        } else {
            let line_len = match self.get_line_content(count - 1) {
                Some(line) => line.len(),
                None => 0,
            };
            end.column = end.column + line_len;
        }
        end
    }

    /// Rebuild this chunk around a fresh payload, recomputing the line index
    /// from scratch; the result is indistinguishable from `Chunk::new(data)`.
    pub fn load(&mut self, data: Vec<u8>)
        ensures
            final(self).wf(),
            final(self)@ == data@,
    {
        *self = Chunk::new(data);
    }

    /// Drop the payload (and with it the line index) to reclaim memory; the
    /// chunk is left equal to one built from an empty buffer, and `load`
    /// restores it.
    pub fn release(&mut self)
        ensures
            final(self).wf(),
            final(self)@ == Seq::<u8>::empty(),
    {
        self.data = Vec::new();
        self.line_feed_offset = Vec::new();
        self.line_start_offset = Vec::new();
        self.line_start_offset.push(0);
        proof {
            assert(terminator_offsets(self.data@) =~= Seq::<int>::empty());
            assert(self.line_feed_offset@.map_values(|off: usize| off as int) =~= Seq::<
                int,
            >::empty());
            let raw = seq![0int] + terminator_offsets(self.data@).map_values(|off: int| off + 1);
            assert(raw =~= seq![0int]);
            assert(self.line_start_offset@.map_values(|off: usize| off as int) =~= raw);
        }
    }

    /// The line-start table itself: the start offset of every line followed
    /// by the bound of the last one.
    pub fn line_start_offset(&self) -> (r: &Vec<usize>)
        requires
            self.wf(),
        ensures
            r@.map_values(|off: usize| off as int) == line_starts_of(self@),
    {
        &self.line_start_offset
    }
}

/// Two well-formed chunks over the same bytes are observationally identical:
/// the line index is a pure function of the payload, so releasing a chunk
/// and loading the original bytes back restores the state a fresh
/// construction from those bytes would have.
pub proof fn lemma_same_payload_same_index(a: Chunk, b: Chunk)
    requires
        a.wf(),
        b.wf(),
        a@ == b@,
    ensures
        a.spec_line_starts() == b.spec_line_starts(),
        line_count_of(a@) == line_count_of(b@),
        continues_of(a@) == continues_of(b@),
{
}

} // verus!
