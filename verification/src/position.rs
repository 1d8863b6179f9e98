//! Text coordinates and the byte-by-byte scan that defines them.
//!
//! `scan_forward` and `scan_backward` walk a buffer one byte at a time and
//! are the ground truth for the chunk-level position arithmetic: the chunk
//! folds are specified as equal to these scans, and the fold laws below show
//! that folding chunk by chunk equals one scan of the whole stream.

use vstd::prelude::*;

use crate::lines::TERMINATOR;
use crate::lines::concat_all;
use crate::lines::continues_of;
use crate::lines::head_fragment_len;
use crate::lines::lemma_terminator_offsets;
use crate::lines::tail_fragment_len;
use crate::lines::terminator_count;
use crate::lines::terminator_offsets;

verus! {

/// A zero-based (row, column) coordinate into the logical text; the column
/// counts bytes within the row.
#[derive(Debug, Default, Clone, Copy, PartialEq, Eq, Structural)]
pub struct Position {
    pub row: usize,
    pub column: usize,
}

/// Mathematical counterpart of `Position`, free of machine widths.
pub ghost struct SpecPos {
    pub row: int,
    pub col: int,
}

impl View for Position {
    type V = SpecPos;

    open spec fn view(&self) -> SpecPos {
        SpecPos { row: self.row as int, col: self.column as int }
    }
}

/// One byte of a scan: a terminator opens the next row, any other byte
/// widens the current row by one column.
pub open spec fn scan_byte(p: SpecPos, b: u8) -> SpecPos {
    if b == TERMINATOR {
        SpecPos { row: p.row + 1, col: 0 }
    } else {
        SpecPos { row: p.row, col: p.col + 1 }
    }
}

/// Position after scanning `data` forward, first byte to last, from `p`.
pub open spec fn scan_forward(data: Seq<u8>, p: SpecPos) -> SpecPos
    decreases data.len(),
{
    if data.len() == 0 {
        p
    } else {
        scan_byte(scan_forward(data.drop_last(), p), data.last())
    }
}

/// Position after scanning `data` backward, last byte to first, from `p`.
pub open spec fn scan_backward(data: Seq<u8>, p: SpecPos) -> SpecPos
    decreases data.len(),
{
    if data.len() == 0 {
        p
    } else {
        scan_backward(data.drop_last(), scan_byte(p, data.last()))
    }
}

/// A forward scan of two adjacent buffers is the scan of the second seeded
/// with the scan of the first.
pub proof fn lemma_scan_forward_concat(a: Seq<u8>, b: Seq<u8>, p: SpecPos)
    ensures
        scan_forward(a + b, p) == scan_forward(b, scan_forward(a, p)),
    decreases b.len(),
{
    if b.len() == 0 {
        assert(a + b =~= a);
    } else {
        lemma_scan_forward_concat(a, b.drop_last(), p);
        assert((a + b).drop_last() =~= a + b.drop_last());
        assert((a + b).last() == b.last());
    }
}

/// A backward scan of two adjacent buffers is the scan of the first seeded
/// with the scan of the second.
pub proof fn lemma_scan_backward_concat(a: Seq<u8>, b: Seq<u8>, p: SpecPos)
    ensures
        scan_backward(a + b, p) == scan_backward(a, scan_backward(b, p)),
    decreases b.len(),
{
    if b.len() == 0 {
        assert(a + b =~= a);
    } else {
        lemma_scan_backward_concat(a, b.drop_last(), scan_byte(p, b.last()));
        assert((a + b).drop_last() =~= a + b.drop_last());
        assert((a + b).last() == b.last());
    }
}

/// Closed form of the forward scan: the row advances by the number of
/// terminators, and the column ends at the length of the final fragment
/// (grown from the seed column when no terminator was crossed).
pub proof fn lemma_scan_forward_values(data: Seq<u8>, p: SpecPos)
    ensures
        scan_forward(data, p).row == p.row + terminator_count(data),
        terminator_count(data) == 0 ==> scan_forward(data, p).col == p.col + data.len(),
        terminator_count(data) > 0 ==> scan_forward(data, p).col == tail_fragment_len(data),
    decreases data.len(),
{
    if data.len() == 0 {
    } else {
        let e = data.drop_last();
        lemma_scan_forward_values(e, p);
        lemma_terminator_offsets(e);
        lemma_terminator_offsets(data);
    }
}

/// Closed form of the backward scan: the row advances by the number of
/// terminators, and the column ends at the length of the first fragment
/// (grown from the seed column when no terminator was crossed).
pub proof fn lemma_scan_backward_values(data: Seq<u8>, p: SpecPos)
    ensures
        scan_backward(data, p).row == p.row + terminator_count(data),
        terminator_count(data) == 0 ==> scan_backward(data, p).col == p.col + data.len(),
        terminator_count(data) > 0 ==> scan_backward(data, p).col == head_fragment_len(data),
    decreases data.len(),
{
    if data.len() == 0 {
    } else {
        let e = data.drop_last();
        lemma_scan_backward_values(e, scan_byte(p, data.last()));
        lemma_terminator_offsets(e);
        lemma_terminator_offsets(data);
        if terminator_count(e) > 0 {
            assert(terminator_offsets(data)[0] == terminator_offsets(e)[0]);
        }
    }
}

/// Left fold of the forward scan across consecutive buffers.
pub open spec fn fold_forward(parts: Seq<Seq<u8>>, p: SpecPos) -> SpecPos
    decreases parts.len(),
{
    if parts.len() == 0 {
        p
    } else {
        scan_forward(parts.last(), fold_forward(parts.drop_last(), p))
    }
}

/// Right fold of the backward scan across consecutive buffers.
pub open spec fn fold_backward(parts: Seq<Seq<u8>>, p: SpecPos) -> SpecPos
    decreases parts.len(),
{
    if parts.len() == 0 {
        p
    } else {
        fold_backward(parts.drop_last(), scan_backward(parts.last(), p))
    }
}

/// Folding the forward scan across buffers that exactly partition a stream,
/// in order, ends at the position one scan of the whole stream reaches.
pub proof fn lemma_fold_forward_is_scan(parts: Seq<Seq<u8>>, p: SpecPos)
    ensures
        fold_forward(parts, p) == scan_forward(concat_all(parts), p),
    decreases parts.len(),
{
    if parts.len() == 0 {
    } else {
        lemma_fold_forward_is_scan(parts.drop_last(), p);
        lemma_scan_forward_concat(concat_all(parts.drop_last()), parts.last(), p);
    }
}

/// Folding the backward scan across buffers that exactly partition a stream,
/// last buffer first, ends at the position one backward scan of the whole
/// stream reaches.
pub proof fn lemma_fold_backward_is_scan(parts: Seq<Seq<u8>>, p: SpecPos)
    ensures
        fold_backward(parts, p) == scan_backward(concat_all(parts), p),
    decreases parts.len(),
{
    if parts.len() == 0 {
    } else {
        lemma_fold_backward_is_scan(parts.drop_last(), scan_backward(parts.last(), p));
        lemma_scan_backward_concat(concat_all(parts.drop_last()), parts.last(), p);
    }
}

} // verus!
