//! The mathematical model of line boundaries inside one byte buffer.
//!
//! A buffer is split on the terminator byte; every fragment that ends on a
//! terminator is a complete line, and a non-empty fragment left over at the
//! end is one more (incomplete) line.  The model names the terminator
//! offsets, the derived line-start table (with its trailing sentinel), and
//! the bytes of each line.

use vstd::prelude::*;

verus! {

/// The line-terminator byte (`\n`).
pub const TERMINATOR: u8 = 10;

/// Number of terminator bytes in `data`.
pub open spec fn terminator_count(data: Seq<u8>) -> int
    decreases data.len(),
{
    if data.len() == 0 {
        0
    } else {
        terminator_count(data.drop_last()) + if data.last() == TERMINATOR {
            1int
        } else {
            0int
        }
    }
}

/// Offsets of the terminator bytes in `data`, in ascending order.
pub open spec fn terminator_offsets(data: Seq<u8>) -> Seq<int>
    decreases data.len(),
{
    if data.len() == 0 {
        Seq::empty()
    } else {
        terminator_offsets(data.drop_last()) + if data.last() == TERMINATOR {
            seq![data.len() - 1]
        } else {
            Seq::empty()
        }
    }
}

/// True iff the buffer's final line is incomplete, i.e. the buffer is
/// non-empty and its last byte is not the terminator: the line is finished
/// only by a following chunk (or by the end of the stream).
pub open spec fn continues_of(data: Seq<u8>) -> bool {
    data.len() > 0 && data.last() != TERMINATOR
}

/// Number of lines in `data`: one per terminator, plus one for an
/// unterminated final fragment; 0 for an empty buffer.
pub open spec fn line_count_of(data: Seq<u8>) -> int {
    terminator_count(data) + if continues_of(data) {
        1int
    } else {
        0int
    }
}

/// Length of the final fragment, the bytes after the last terminator
/// (the whole buffer when there is none, 0 when it ends on a terminator).
pub open spec fn tail_fragment_len(data: Seq<u8>) -> int {
    if terminator_count(data) == 0 {
        data.len() as int
    } else {
        data.len() - 1 - terminator_offsets(data).last()
    }
}

/// Length of the first fragment, the bytes before the first terminator
/// (the whole buffer when there is none).
pub open spec fn head_fragment_len(data: Seq<u8>) -> int {
    if terminator_count(data) == 0 {
        data.len() as int
    } else {
        terminator_offsets(data)[0]
    }
}

/// The line-start table of `data`: offset 0, then one past every terminator,
/// with a trailing sentinel `data.len()` unless the last entry already
/// equals it.  Entry `i` is the start of line `i`; entry `i + 1` bounds it.
pub open spec fn line_starts_of(data: Seq<u8>) -> Seq<int> {
    let starts = seq![0int] + terminator_offsets(data).map_values(|off: int| off + 1);
    if starts.last() == data.len() {
        starts
    } else {
        starts + seq![data.len() as int]
    }
}

/// The bytes of line `i` of `data`.
pub open spec fn line_of(data: Seq<u8>, i: int) -> Seq<u8> {
    data.subrange(line_starts_of(data)[i], line_starts_of(data)[i + 1])
}

/// All lines of `data`, in order.
pub open spec fn lines_of(data: Seq<u8>) -> Seq<Seq<u8>> {
    Seq::new(line_count_of(data) as nat, |i: int| line_of(data, i))
}

/// Concatenation of a sequence of byte buffers, in order.
pub open spec fn concat_all(parts: Seq<Seq<u8>>) -> Seq<u8>
    decreases parts.len(),
{
    if parts.len() == 0 {
        Seq::empty()
    } else {
        concat_all(parts.drop_last()) + parts.last()
    }
}

/// The terminator offsets are exactly the positions of the terminator bytes,
/// listed in strictly ascending order, and the fragment lengths are the
/// distances to the first and past the last of them.
pub proof fn lemma_terminator_offsets(data: Seq<u8>)
    ensures
        terminator_offsets(data).len() == terminator_count(data),
        0 <= terminator_count(data) <= data.len(),
        continues_of(data) ==> terminator_count(data) < data.len(),
        forall|i: int|
            0 <= i < terminator_offsets(data).len() ==> 0 <= #[trigger] terminator_offsets(data)[i]
                < data.len() && data[terminator_offsets(data)[i]] == TERMINATOR,
        forall|i: int, j: int|
            0 <= i < j < terminator_offsets(data).len() ==> #[trigger] terminator_offsets(data)[i]
                < #[trigger] terminator_offsets(data)[j],
        forall|p: int|
            0 <= p < data.len() && #[trigger] data[p] == TERMINATOR ==> terminator_offsets(
                data,
            ).contains(p),
        terminator_count(data) > 0 ==> (terminator_offsets(data).last() == data.len() - 1 <==> data.last()
            == TERMINATOR),
    decreases data.len(),
{
    if data.len() == 0 {
    } else {
        let e = data.drop_last();
        let offs = terminator_offsets(data);
        lemma_terminator_offsets(e);
        assert(e.len() == data.len() - 1);
        assert(forall|p: int| 0 <= p < e.len() ==> e[p] == data[p]);
        assert forall|p: int|
            0 <= p < data.len() && #[trigger] data[p] == TERMINATOR implies offs.contains(p) by {
            if p < data.len() - 1 {
                assert(e[p] == TERMINATOR);
                assert(terminator_offsets(e).contains(p));
                let i = choose|i: int|
                    0 <= i < terminator_offsets(e).len() && terminator_offsets(e)[i] == p;
                assert(offs[i] == p);
            } else {
                assert(data.last() == TERMINATOR);
                assert(offs.last() == p);
            }
        };
    }
}

/// Shape of the line-start table: it has one entry per line plus one, begins
/// at 0, ends at `data.len()`, and ascends strictly; the non-sentinel entries
/// sit one past the terminators, and when the final line is incomplete its
/// start is `tail_fragment_len` bytes short of the end.
pub proof fn lemma_line_starts(data: Seq<u8>)
    ensures
        line_starts_of(data).len() == line_count_of(data) + 1,
        line_starts_of(data)[0] == 0,
        line_starts_of(data).last() == data.len(),
        forall|i: int|
            0 <= i < line_starts_of(data).len() ==> 0 <= #[trigger] line_starts_of(data)[i]
                <= data.len(),
        forall|a: int, b: int|
            0 <= a < b < line_starts_of(data).len() ==> #[trigger] line_starts_of(data)[a]
                < #[trigger] line_starts_of(data)[b],
        forall|k: int|
            1 <= k <= terminator_count(data) ==> #[trigger] line_starts_of(data)[k]
                == terminator_offsets(data)[k - 1] + 1,
        data.len() > 0 ==> line_count_of(data) >= 1,
        continues_of(data) ==> line_starts_of(data)[line_count_of(data) - 1] == data.len()
            - tail_fragment_len(data),
{
    lemma_terminator_offsets(data);
    let offs = terminator_offsets(data);
    let tc = terminator_count(data);
    let raw = seq![0int] + offs.map_values(|off: int| off + 1);
    assert(raw.len() == tc + 1);
    assert(raw[0] == 0);
    assert(forall|k: int| 1 <= k <= tc ==> #[trigger] raw[k] == offs[k - 1] + 1);
    if data.len() == 0 {
        assert(raw.last() == 0);
        assert(line_starts_of(data) =~= raw);
    } else if data.last() == TERMINATOR {
        assert(tc > 0);
        assert(offs.last() == data.len() - 1);
        assert(raw.last() == raw[tc]);
        assert(raw.last() == data.len());
        assert(line_starts_of(data) =~= raw);
    } else {
        assert(continues_of(data));
        if tc == 0 {
            assert(raw.last() == 0);
        } else {
            assert(offs.last() < data.len() - 1);
            assert(raw.last() == raw[tc]);
            assert(raw.last() == offs[tc - 1] + 1);
        }
        assert(raw.last() < data.len());
        assert(line_starts_of(data) =~= raw + seq![data.len() as int]);
    }
    assert forall|a: int, b: int|
        0 <= a < b < line_starts_of(data).len() implies #[trigger] line_starts_of(data)[a]
        < #[trigger] line_starts_of(data)[b] by {
        let s = line_starts_of(data);
        if b < raw.len() {
            assert(s[a] == raw[a] && s[b] == raw[b]);
            if a == 0 {
                assert(s[b] == offs[b - 1] + 1);
            } else {
                assert(s[a] == offs[a - 1] + 1 && s[b] == offs[b - 1] + 1);
                assert(offs[a - 1] < offs[b - 1]);
            }
        } else {
            assert(b == s.len() - 1 && s[b] == data.len() && raw.last() < data.len());
            if a == 0 {
            } else {
                assert(s[a] == offs[a - 1] + 1);
                if a - 1 < tc - 1 {
                    assert(offs[a - 1] < offs[tc - 1]);
                }
                assert(raw[tc] == offs[tc - 1] + 1);
                assert(s[a] <= raw.last());
            }
        }
    };
}

/// Concatenating the first `j` lines of `data` yields its prefix up to the
/// start of line `j`.
proof fn lemma_lines_concat_prefix(data: Seq<u8>, j: int)
    requires
        0 <= j <= line_count_of(data),
    ensures
        concat_all(lines_of(data).take(j)) == data.take(line_starts_of(data)[j]),
    decreases j,
{
    lemma_line_starts(data);
    let s = line_starts_of(data);
    if j == 0 {
        assert(lines_of(data).take(0) =~= Seq::<Seq<u8>>::empty());
        assert(data.take(s[0]) =~= Seq::<u8>::empty());
    } else {
        lemma_lines_concat_prefix(data, j - 1);
        let lines = lines_of(data);
        assert(lines.take(j).drop_last() =~= lines.take(j - 1));
        assert(lines.take(j).last() == line_of(data, j - 1));
        assert(data.take(s[j - 1]) + data.subrange(s[j - 1], s[j]) =~= data.take(s[j]));
    }
}

/// Concatenating every line of `data`, in order, reproduces `data` exactly.
pub proof fn lemma_lines_concat(data: Seq<u8>)
    ensures
        concat_all(lines_of(data)) == data,
{
    lemma_line_starts(data);
    lemma_lines_concat_prefix(data, line_count_of(data));
    assert(lines_of(data).take(line_count_of(data)) =~= lines_of(data));
    assert(data.take(line_starts_of(data)[line_count_of(data)]) =~= data);
}

/// Each line is non-empty, holds no terminator before its final byte, and
/// ends on the terminator exactly when it is not an unterminated final
/// fragment: the lines are the fragments of splitting `data` on the
/// terminator byte.
pub proof fn lemma_line_shape(data: Seq<u8>, i: int)
    requires
        0 <= i < line_count_of(data),
    ensures
        line_of(data, i).len() >= 1,
        forall|j: int| 0 <= j < line_of(data, i).len() - 1 ==> line_of(data, i)[j] != TERMINATOR,
        line_of(data, i).last() == TERMINATOR <==> (i < line_count_of(data) - 1 || !continues_of(
            data,
        )),
{
    lemma_terminator_offsets(data);
    lemma_line_starts(data);
    let s = line_starts_of(data);
    let offs = terminator_offsets(data);
    let tc = terminator_count(data);
    let count = line_count_of(data);
    assert forall|j: int| 0 <= j < line_of(data, i).len() - 1 implies line_of(data, i)[j]
        != TERMINATOR by {
        let p = s[i] + j;
        assert(line_of(data, i)[j] == data[p]);
        if data[p] == TERMINATOR {
            assert(offs.contains(p));
            let k = choose|k: int| 0 <= k < offs.len() && offs[k] == p;
            assert(s[k + 1] == p + 1);
            assert(s[i] < s[k + 1] < s[i + 1]);
            if k + 1 <= i {
                assert(s[k + 1] <= s[i]);
            } else {
                assert(s[k + 1] >= s[i + 1]);
            }
        }
    };
    let q = s[i + 1] - 1;
    assert(line_of(data, i).last() == data[q]);
    if i < count - 1 || !continues_of(data) {
        assert(1 <= i + 1 <= tc);
        assert(s[i + 1] == offs[i] + 1);
        assert(data[offs[i]] == TERMINATOR);
    } else {
        assert(i == count - 1 && continues_of(data));
        assert(s[i + 1] == data.len());
        assert(data[q] == data.last());
    }
}

} // verus!
