use chunkline::Chunk;
use chunkline::Position;

fn str_to_chunk(s: &str) -> Chunk {
    Chunk::new(s.as_bytes().to_vec())
}

#[test]
fn test_new_chunk() {
    let start = Position { row: 0, column: 0 };
    let chunk = str_to_chunk("");
    assert_eq!(chunk.get_line_count(), 0);
    assert_eq!(chunk.line_start_offset(), &vec![0]);
    assert_eq!(chunk.get_line_content(0), None);
    assert_eq!(chunk.continue_to_next_chunk(), false);
    assert_eq!(chunk.calc_end(start), start);
    {
        let start = Position { row: 1, column: 1 };
        assert_eq!(chunk.calc_end(start), start);
    }
    assert_eq!(chunk.calc_backward_start(), start);
    assert_eq!(chunk.calc_backward_end(start), start);
    {
        let start = Position { row: 1, column: 1 };
        assert_eq!(chunk.calc_backward_end(start), start);
    }

    let chunk = str_to_chunk("a");
    assert_eq!(chunk.get_line_count(), 1);
    assert_eq!(chunk.line_start_offset(), &vec![0, 1]);
    assert_eq!(chunk.get_line_content(0), Some(b"a".as_slice()));
    assert_eq!(chunk.continue_to_next_chunk(), true);
    assert_eq!(chunk.calc_end(start), Position { row: 0, column: 1 });
    {
        let start = Position { row: 1, column: 1 };
        assert_eq!(chunk.calc_end(start), Position { row: 1, column: 2 });
    }
    assert_eq!(chunk.calc_backward_start(), Position { row: 0, column: 1 });
    assert_eq!(
        chunk.calc_backward_end(start),
        Position { row: 0, column: 1 }
    );
    {
        let start = Position { row: 1, column: 1 };
        assert_eq!(
            chunk.calc_backward_end(start),
            Position { row: 1, column: 2 }
        );
    }

    let chunk = str_to_chunk("\n");
    assert_eq!(chunk.get_line_count(), 1);
    assert_eq!(chunk.line_start_offset(), &vec![0, 1]);
    assert_eq!(chunk.get_line_content(0), Some(b"\n".as_slice()));
    assert_eq!(chunk.continue_to_next_chunk(), false);
    assert_eq!(chunk.calc_end(start), Position { row: 1, column: 0 });
    {
        let start = Position { row: 1, column: 1 };
        assert_eq!(chunk.calc_end(start), Position { row: 2, column: 0 });
    }
    assert_eq!(chunk.calc_backward_start(), Position { row: 0, column: 0 });
    assert_eq!(
        chunk.calc_backward_end(start),
        Position { row: 1, column: 0 }
    );
    {
        let start = Position { row: 1, column: 1 };
        assert_eq!(
            chunk.calc_backward_end(start),
            Position { row: 2, column: 0 }
        );
    }

    let chunk = str_to_chunk("\n\n");
    assert_eq!(chunk.get_line_count(), 2);
    assert_eq!(chunk.line_start_offset(), &vec![0, 1, 2]);
    assert_eq!(chunk.get_line_content(0), Some(b"\n".as_slice()));
    assert_eq!(chunk.get_line_content(1), Some(b"\n".as_slice()));
    assert_eq!(chunk.get_line_content(2), None);
    assert_eq!(chunk.continue_to_next_chunk(), false);
    assert_eq!(chunk.calc_end(start), Position { row: 2, column: 0 });
    {
        let start = Position { row: 1, column: 1 };
        assert_eq!(chunk.calc_end(start), Position { row: 3, column: 0 });
    }
    assert_eq!(chunk.calc_backward_start(), Position { row: 0, column: 0 });
    assert_eq!(
        chunk.calc_backward_end(start),
        Position { row: 2, column: 0 }
    );
    {
        let start = Position { row: 1, column: 1 };
        assert_eq!(
            chunk.calc_backward_end(start),
            Position { row: 3, column: 0 }
        );
    }

    let chunk = str_to_chunk("a\n");
    assert_eq!(chunk.get_line_count(), 1);
    assert_eq!(chunk.line_start_offset(), &vec![0, 2]);
    assert_eq!(chunk.get_line_content(0), Some(b"a\n".as_slice()));
    assert_eq!(chunk.continue_to_next_chunk(), false);
    assert_eq!(chunk.calc_end(start), Position { row: 1, column: 0 });
    {
        let start = Position { row: 1, column: 1 };
        assert_eq!(chunk.calc_end(start), Position { row: 2, column: 0 });
    }
    assert_eq!(chunk.calc_backward_start(), Position { row: 0, column: 0 });
    assert_eq!(
        chunk.calc_backward_end(start),
        Position { row: 1, column: 1 }
    );
    {
        let start = Position { row: 1, column: 1 };
        assert_eq!(
            chunk.calc_backward_end(start),
            Position { row: 2, column: 1 }
        );
    }

    let chunk = str_to_chunk("a\nb");
    assert_eq!(chunk.get_line_count(), 2);
    assert_eq!(chunk.line_start_offset(), &vec![0, 2, 3]);
    assert_eq!(chunk.get_line_content(0), Some(b"a\n".as_slice()));
    assert_eq!(chunk.get_line_content(1), Some(b"b".as_slice()));
    assert_eq!(chunk.get_line_content(2), None);
    assert_eq!(chunk.continue_to_next_chunk(), true);
    assert_eq!(chunk.calc_end(start), Position { row: 1, column: 1 });
    {
        let start = Position { row: 1, column: 1 };
        assert_eq!(chunk.calc_end(start), Position { row: 2, column: 1 });
    }
    assert_eq!(chunk.calc_backward_start(), Position { row: 0, column: 1 });
    assert_eq!(
        chunk.calc_backward_end(start),
        Position { row: 1, column: 1 }
    );
    {
        let start = Position { row: 1, column: 1 };
        assert_eq!(
            chunk.calc_backward_end(start),
            Position { row: 2, column: 1 }
        );
    }

    let chunk = str_to_chunk("a\nb\n");
    assert_eq!(chunk.get_line_count(), 2);
    assert_eq!(chunk.line_start_offset(), &vec![0, 2, 4]);
    assert_eq!(chunk.get_line_content(0), Some(b"a\n".as_slice()));
    assert_eq!(chunk.get_line_content(1), Some(b"b\n".as_slice()));
    assert_eq!(chunk.get_line_content(2), None);
    assert_eq!(chunk.continue_to_next_chunk(), false);
    assert_eq!(chunk.calc_end(start), Position { row: 2, column: 0 });
    {
        let start = Position { row: 1, column: 1 };
        assert_eq!(chunk.calc_end(start), Position { row: 3, column: 0 });
    }
    assert_eq!(chunk.calc_backward_start(), Position { row: 0, column: 0 });
    assert_eq!(
        chunk.calc_backward_end(start),
        Position { row: 2, column: 1 }
    );
    {
        let start = Position { row: 1, column: 1 };
        assert_eq!(
            chunk.calc_backward_end(start),
            Position { row: 3, column: 1 }
        );
    }

    let chunk = str_to_chunk("\na\n");
    assert_eq!(chunk.get_line_count(), 2);
    assert_eq!(chunk.line_start_offset(), &vec![0, 1, 3]);
    assert_eq!(chunk.get_line_content(0), Some(b"\n".as_slice()));
    assert_eq!(chunk.get_line_content(1), Some(b"a\n".as_slice()));
    assert_eq!(chunk.get_line_content(2), None);
    assert_eq!(chunk.continue_to_next_chunk(), false);
    assert_eq!(chunk.calc_end(start), Position { row: 2, column: 0 });
    {
        let start = Position { row: 1, column: 1 };
        assert_eq!(chunk.calc_end(start), Position { row: 3, column: 0 });
    }
    assert_eq!(chunk.calc_backward_start(), Position { row: 0, column: 0 });
    assert_eq!(
        chunk.calc_backward_end(start),
        Position { row: 2, column: 0 }
    );
    {
        let start = Position { row: 1, column: 1 };
        assert_eq!(
            chunk.calc_backward_end(start),
            Position { row: 3, column: 0 }
        );
    }
}

#[test]
fn test_line_count_matches_split() {
    for s in [
        "", "a", "\n", "\n\n", "\na", "a\n", "a\nb", "a\nb\n", "\na\n", "abc", "abc\n\ndef",
        "x\ny\nz\n\n\nw",
    ] {
        let chunk = str_to_chunk(s);
        let pieces: Vec<&str> = s.split('\n').collect();
        let mut expected = pieces.len();
        if pieces.last() == Some(&"") {
            expected -= 1;
        }
        assert_eq!(chunk.get_line_count(), expected, "line count for {:?}", s);
    }
}

#[test]
fn test_continues_iff_unterminated_tail() {
    assert!(!str_to_chunk("").continue_to_next_chunk());
    assert!(str_to_chunk("a").continue_to_next_chunk());
    assert!(!str_to_chunk("\n").continue_to_next_chunk());
    assert!(str_to_chunk("a\nb").continue_to_next_chunk());
    assert!(!str_to_chunk("a\nb\n").continue_to_next_chunk());
    assert!(str_to_chunk("\n\nx").continue_to_next_chunk());
}

#[test]
fn test_line_concat_roundtrip() {
    for s in [
        "", "a", "\n", "\n\n", "\na", "a\n", "a\nb", "a\nb\n", "\na\n", "no terminator at all",
        "one\ntwo\nthree\n", "\n\n\nmany\n\nblanks",
    ] {
        let chunk = str_to_chunk(s);
        let mut rebuilt: Vec<u8> = Vec::new();
        for i in 0..chunk.get_line_count() {
            rebuilt.extend_from_slice(chunk.get_line_content(i).unwrap());
        }
        assert_eq!(rebuilt, s.as_bytes().to_vec(), "round trip for {:?}", s);
    }
}

#[test]
fn test_release_then_load_restores_fresh_state() {
    let bytes = b"alpha\nbeta\ngamma".to_vec();
    let fresh = Chunk::new(bytes.clone());
    let mut chunk = Chunk::new(bytes.clone());

    chunk.release();
    assert_eq!(chunk.get_line_count(), 0);
    assert_eq!(chunk.get_line_content(0), None);
    assert_eq!(chunk.continue_to_next_chunk(), false);
    assert_eq!(chunk.line_start_offset(), &vec![0]);

    chunk.load(bytes);
    assert_eq!(chunk.line_start_offset(), fresh.line_start_offset());
    assert_eq!(chunk.get_line_count(), fresh.get_line_count());
    assert_eq!(chunk.continue_to_next_chunk(), fresh.continue_to_next_chunk());
    for i in 0..fresh.get_line_count() {
        assert_eq!(chunk.get_line_content(i), fresh.get_line_content(i));
    }
    let start = Position { row: 3, column: 2 };
    assert_eq!(chunk.calc_end(start), fresh.calc_end(start));
    assert_eq!(chunk.calc_backward_start(), fresh.calc_backward_start());
    assert_eq!(chunk.calc_backward_end(start), fresh.calc_backward_end(start));
}
