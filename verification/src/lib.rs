//! Line-boundary indexing for fixed-size chunks of a large byte stream.
//!
//! A [`Chunk`] holds one contiguous slice of a read-only byte stream together
//! with an index of the line starts inside it; [`ChunkLoader`] does the
//! arithmetic that places each chunk inside the whole stream.  Position
//! arithmetic over chunks (forward and backward folds) is specified against a
//! naive byte-by-byte scan of the stream and proved to agree with it.

mod chunk;
mod lines;
mod loader;
mod position;

pub use chunk::Chunk;
pub use chunk::lemma_same_payload_same_index;
pub use lines::TERMINATOR;
pub use lines::concat_all;
pub use lines::lemma_line_shape;
pub use lines::lemma_line_starts;
pub use lines::lemma_lines_concat;
pub use lines::lemma_terminator_offsets;
pub use lines::continues_of;
pub use lines::head_fragment_len;
pub use lines::line_count_of;
pub use lines::line_of;
pub use lines::line_starts_of;
pub use lines::lines_of;
pub use lines::tail_fragment_len;
pub use lines::terminator_count;
pub use lines::terminator_offsets;
pub use loader::ChunkLoader;
pub use loader::lemma_chunk_sizes;
pub use position::Position;
pub use position::SpecPos;
pub use position::fold_backward;
pub use position::fold_forward;
pub use position::lemma_fold_backward_is_scan;
pub use position::lemma_fold_forward_is_scan;
pub use position::scan_backward;
pub use position::scan_byte;
pub use position::scan_forward;
